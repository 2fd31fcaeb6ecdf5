//! The tree of layout nodes: an arena in which every node has its style, its
//! cache, the list of its children and a link to its parent, along which an
//! invalidation climbs.

use crate::cache::LayoutCache;
use crate::layout::container::{
    arrange, child_rect, child_request, measure_children, measured, request_for_children,
};
use crate::layout::leaf::{budget, content_budget, place, placed};
use crate::layout::{ComputedLayout, Layout, LayoutCharacteristics, LayoutInput, Shape};
use crate::math::{Axis, Point, Rect, Size, UNBOUNDED};
use crate::style::{ContainerLayoutStyle, Direction, Justify, LayoutStyle};
use vstd::prelude::*;

verus! {

/// The node reached from `n` by following the parent link `k` times, if the
/// chain is that long.
pub open spec fn up(parents: Seq<Option<usize>>, n: int, k: nat) -> Option<int>
    decreases k,
{
    if k == 0 {
        Some(n)
    } else {
        match up(parents, n, (k - 1) as nat) {
            Some(m) => if 0 <= m < parents.len() {
                match parents[m] {
                    Some(p) => Some(p as int),
                    None => None,
                }
            } else {
                None
            },
            None => None,
        }
    }
}

/// Whether `a` is `n` or one of its ancestors.
pub open spec fn is_ancestor_or_self(parents: Seq<Option<usize>>, a: int, n: int) -> bool {
    exists|k: nat| up(parents, n, k) == Some(a)
}

/// Whether `m` is one of the first `k + 1` nodes of the chain that climbs
/// from `n`.
pub open spec fn on_chain(parents: Seq<Option<usize>>, n: int, k: nat, m: int) -> bool {
    exists|i: nat| i <= k && up(parents, n, i) == Some(m)
}

/// Following the chain from a node is following it from its parent, one step
/// later.
pub proof fn lemma_up_shift(parents: Seq<Option<usize>>, x: int, y: usize, k: nat)
    requires
        0 <= x < parents.len(),
        parents[x] == Some(y),
    ensures
        up(parents, x, k + 1) == up(parents, y as int, k),
    decreases k,
{
    if k > 0 {
        lemma_up_shift(parents, x, y, (k - 1) as nat);
    } else {
        assert(up(parents, x, 0) == Some(x));
    }
}

/// The chain from a node without parent ends at the node.
pub proof fn lemma_up_root(parents: Seq<Option<usize>>, x: int, k: nat)
    requires
        !(0 <= x < parents.len()) || parents[x] is None,
    ensures
        up(parents, x, k + 1) is None,
    decreases k,
{
    if k > 0 {
        lemma_up_root(parents, x, (k - 1) as nat);
    } else {
        assert(up(parents, x, 0) == Some(x));
    }
}

/// Where the chain has ended it stays ended.
pub proof fn lemma_up_ended(parents: Seq<Option<usize>>, n: int, k: nat, j: nat)
    requires
        up(parents, n, k) is None,
        k <= j,
    ensures
        up(parents, n, j) is None,
    decreases j,
{
    if j > k {
        lemma_up_ended(parents, n, k, (j - 1) as nat);
    }
}

/// The ancestors of a node are the node and the ancestors of its parent.
pub proof fn lemma_ancestor_unfold(parents: Seq<Option<usize>>, a: int, x: int)
    ensures
        is_ancestor_or_self(parents, a, x) <==> (x == a || (0 <= x < parents.len()
            && parents[x] is Some && is_ancestor_or_self(
            parents,
            a,
            parents[x]->Some_0 as int,
        ))),
{
    if is_ancestor_or_self(parents, a, x) && x != a {
        let k = choose|k: nat| up(parents, x, k) == Some(a);
        assert(k > 0);
        let j = (k - 1) as nat;
        if 0 <= x < parents.len() && parents[x] is Some {
            lemma_up_shift(parents, x, parents[x]->Some_0, j);
            assert(up(parents, parents[x]->Some_0 as int, j) == Some(a));
        } else {
            lemma_up_root(parents, x, j);
        }
    }
    if x == a {
        assert(up(parents, x, 0) == Some(a));
    }
    if 0 <= x < parents.len() && parents[x] is Some && is_ancestor_or_self(
        parents,
        a,
        parents[x]->Some_0 as int,
    ) {
        let j = choose|j: nat| up(parents, parents[x]->Some_0 as int, j) == Some(a);
        lemma_up_shift(parents, x, parents[x]->Some_0, j);
        assert(up(parents, x, j + 1) == Some(a));
    }
}

/// An ancestor of a node's parent is an ancestor of the node: what climbs
/// from a node passes through every ancestor of the node it is linked to.
pub proof fn lemma_ancestor_through_parent(parents: Seq<Option<usize>>, a: int, n: int)
    requires
        0 <= n < parents.len(),
        parents[n] is Some,
        is_ancestor_or_self(parents, a, parents[n]->Some_0 as int),
    ensures
        is_ancestor_or_self(parents, a, n),
{
    lemma_ancestor_unfold(parents, a, n);
}

/// The parent of an ancestor is an ancestor.
pub proof fn lemma_ancestor_extend(parents: Seq<Option<usize>>, c: int, m: int)
    requires
        0 <= c < parents.len(),
        parents[c] is Some,
        is_ancestor_or_self(parents, c, m),
    ensures
        is_ancestor_or_self(parents, parents[c]->Some_0 as int, m),
{
    let k = choose|k: nat| up(parents, m, k) == Some(c);
    assert(up(parents, m, k + 1) == Some(parents[c]->Some_0 as int));
}

/// A chain that passes through no node whose link was changed is the same
/// chain after the change.
pub proof fn lemma_up_unchanged(
    before: Seq<Option<usize>>,
    after: Seq<Option<usize>>,
    n: int,
    k: nat,
)
    requires
        before.len() == after.len(),
        forall|m: int|
            0 <= m < before.len() && is_ancestor_or_self(before, m, n) ==> #[trigger] after[m]
                == before[m],
    ensures
        up(after, n, k) == up(before, n, k),
    decreases k,
{
    if k > 0 {
        lemma_up_unchanged(before, after, n, (k - 1) as nat);
        match up(before, n, (k - 1) as nat) {
            Some(m) => {
                assert(is_ancestor_or_self(before, m, n));
            },
            None => {},
        }
    }
}

/// A node whose chain passes through no node whose link was changed has the
/// same ancestors after the change.
pub proof fn lemma_ancestors_unchanged(
    before: Seq<Option<usize>>,
    after: Seq<Option<usize>>,
    n: int,
    m: int,
)
    requires
        before.len() == after.len(),
        forall|x: int|
            0 <= x < before.len() && is_ancestor_or_self(before, x, n) ==> #[trigger] after[x]
                == before[x],
    ensures
        is_ancestor_or_self(after, m, n) == is_ancestor_or_self(before, m, n),
{
    if is_ancestor_or_self(after, m, n) {
        let k = choose|k: nat| up(after, n, k) == Some(m);
        lemma_up_unchanged(before, after, n, k);
    }
    if is_ancestor_or_self(before, m, n) {
        let k = choose|k: nat| up(before, n, k) == Some(m);
        lemma_up_unchanged(before, after, n, k);
    }
}

/// Climbing from a node is climbing from any node of its chain, that much
/// later.
pub proof fn lemma_up_compose(parents: Seq<Option<usize>>, m: int, k: nat, j: nat)
    ensures
        up(parents, m, k + j) == match up(parents, m, k) {
            Some(a) => up(parents, a, j),
            None => None,
        },
    decreases j,
{
    if j > 0 {
        lemma_up_compose(parents, m, k, (j - 1) as nat);
        assert(k + j - 1 == k + (j - 1) as nat);
    } else {
        match up(parents, m, k) {
            Some(a) => {
                assert(up(parents, a, 0) == Some(a));
            },
            None => {},
        }
    }
}

/// Of two ancestors of a node one is an ancestor of the other.
pub proof fn lemma_ancestors_comparable(parents: Seq<Option<usize>>, a: int, b: int, m: int)
    requires
        is_ancestor_or_self(parents, a, m),
        is_ancestor_or_self(parents, b, m),
    ensures
        is_ancestor_or_self(parents, a, b) || is_ancestor_or_self(parents, b, a),
{
    let ka = choose|k: nat| up(parents, m, k) == Some(a);
    let kb = choose|k: nat| up(parents, m, k) == Some(b);
    if ka <= kb {
        let j = (kb - ka) as nat;
        lemma_up_compose(parents, m, ka, j);
        assert(up(parents, a, j) == Some(b));
    } else {
        let j = (ka - kb) as nat;
        lemma_up_compose(parents, m, kb, j);
        assert(up(parents, b, j) == Some(a));
    }
}

/// Re-parenting: where the link of `old_child` to its parent is removed and
/// `new_child` is linked to that parent instead, every ancestor of the
/// parent is an ancestor of `new_child`, and `old_child` has no ancestor
/// but itself.
pub proof fn lemma_relinked(
    parents: Seq<Option<usize>>,
    old_child: int,
    new_child: int,
    a: int,
)
    requires
        0 <= old_child < parents.len(),
        0 <= new_child < parents.len(),
        parents[old_child] is Some,
        parents[old_child]->Some_0 < parents.len(),
        !is_ancestor_or_self(parents, new_child, parents[old_child]->Some_0 as int),
        !is_ancestor_or_self(parents, old_child, parents[old_child]->Some_0 as int),
    ensures
        ({
            let parent = parents[old_child]->Some_0;
            let after = parents.update(old_child, None).update(new_child, Some(parent));
            &&& is_ancestor_or_self(parents, a, parent as int) ==> is_ancestor_or_self(
                after,
                a,
                new_child,
            )
            &&& is_ancestor_or_self(after, a, old_child) ==> a == old_child || old_child
                == new_child
        }),
{
    let parent = parents[old_child]->Some_0;
    let after = parents.update(old_child, None).update(new_child, Some(parent));
    if is_ancestor_or_self(parents, a, parent as int) {
        let k = choose|k: nat| up(parents, parent as int, k) == Some(a);
        lemma_up_unchanged(parents, after, parent as int, k);
        assert(is_ancestor_or_self(after, a, parent as int));
        lemma_ancestor_through_parent(after, a, new_child);
    }
    if old_child != new_child {
        lemma_ancestor_unfold(after, a, old_child);
    }
}

/// What the answers of a tree depend on: its nodes with their children and
/// styles, without the caches.
pub struct TreeShape {
    /// The children of each node, in order.
    pub children: Seq<Seq<usize>>,
    /// The style of each node.
    pub styles: Seq<ContainerLayoutStyle>,
    /// For each node, whether it arranges children.
    pub containers: Seq<bool>,
    /// A depth for each node that is larger than that of its parent.
    pub depth: Seq<nat>,
    /// A number above every depth.
    pub bound: nat,
}

impl TreeShape {
    /// Every list has an entry for each node, and every child is a node that
    /// lies deeper than its parent.
    pub open spec fn wf(self) -> bool {
        &&& self.styles.len() == self.children.len()
        &&& self.containers.len() == self.children.len()
        &&& self.depth.len() == self.children.len()
        &&& forall|n: int| 0 <= n < self.children.len() ==> #[trigger] self.depth[n] < self.bound
        &&& forall|p: int, i: int|
            0 <= p < self.children.len() && 0 <= i < self.children[p].len() ==> (
            #[trigger] self.children[p][i]) < self.children.len() && self.depth[p]
                < self.depth[self.children[p][i] as int]
    }
}

/// The measured children of `node` when they answer `answers`: each with
/// its style and the size of its answer.
pub open spec fn characteristics(
    shape: TreeShape,
    node: int,
    answers: Seq<ComputedLayout>,
) -> Seq<LayoutCharacteristics> {
    Seq::new(
        shape.children[node].len(),
        |i: int|
            LayoutCharacteristics {
                layout_style: shape.styles[shape.children[node][i] as int].layout_style,
                min_size: answers[i].margin_box.spec_size(),
            },
    )
}

/// The margin box of the container `node` when it is measured at scale
/// factor `scale_factor` and its children answer `answers`: the measured
/// content size with the container's spacing around it, at the origin.
pub open spec fn measured_box(
    shape: TreeShape,
    node: int,
    scale_factor: u32,
    answers: Seq<ComputedLayout>,
) -> Rect {
    let size = measured(
        shape.styles[node],
        scale_factor,
        characteristics(shape, node, answers),
    ).content_size.spec_plus(
        shape.styles[node].layout_style.spec_spacing(scale_factor).spec_sum_axes(),
    );
    Rect { x: 0, y: 0, w: size.horizontal, h: size.vertical }
}

/// Whether `answers` holds, for each child of the container `node`, an
/// answer of the child to the measurement request that the container hands
/// to its children when it is asked `input`, each computed as [`fresh`]
/// says.
pub open spec fn fresh_children<F: Fn(usize, Size, u32) -> Size>(
    shape: TreeShape,
    measure: &F,
    node: int,
    input: LayoutInput,
    answers: Seq<ComputedLayout>,
) -> bool
    decreases shape.bound - shape.depth[node], 0nat,
{
    &&& shape.wf()
    &&& 0 <= node < shape.children.len()
    &&& answers.len() == shape.children[node].len()
    &&& forall|i: int|
        0 <= i < shape.children[node].len() ==> fresh(
            shape,
            measure,
            shape.children[node][i] as int,
            child_request(
                shape.styles[node],
                input.spec_offered(),
                input.spec_scale_factor(),
            ),
            #[trigger] answers[i],
        )
}

/// Whether `answer` is an answer of `node` to `input` that is computed
/// without any cache, all the way down.
///
/// For a node without children it is the margin box placed around a size
/// that `measure` returned for the node, the content budget and the scale
/// factor. For a container that is measured it is the measured content size
/// with the container's spacing around it, at the origin, where the content
/// is measured from answers of the children that are computed in this way
/// themselves. For a container that is arranged it is the allocated
/// rectangle.
pub open spec fn fresh<F: Fn(usize, Size, u32) -> Size>(
    shape: TreeShape,
    measure: &F,
    node: int,
    input: LayoutInput,
    answer: ComputedLayout,
) -> bool
    decreases shape.bound - shape.depth[node], 1nat,
{
    if !shape.wf() || !(0 <= node < shape.children.len()) {
        false
    } else if !shape.containers[node] {
        exists|content_size: Size|
            {
                &&& call_ensures(
                    *measure,
                    (
                        node as usize,
                        content_budget(shape.styles[node].layout_style, input),
                        input.spec_scale_factor(),
                    ),
                    content_size,
                )
                &&& answer == placed(shape.styles[node].layout_style, input, content_size)
            }
    } else {
        match input {
            LayoutInput::ComputeSize { scale_factor, .. } => exists|answers: Seq<ComputedLayout>|
                {
                    &&& fresh_children(shape, measure, node, input, answers)
                    &&& answer.margin_box == #[trigger] measured_box(
                        shape,
                        node,
                        scale_factor,
                        answers,
                    )
                },
            LayoutInput::FinalLayout { allocated, .. } => answer.margin_box == allocated,
        }
    }
}

/// Whether the shapes `a` and `b` hold the same subtree below `node`: the
/// same children, styles and kinds for the node and all its descendants.
pub open spec fn same_below(a: TreeShape, b: TreeShape, node: int) -> bool
    decreases a.bound - a.depth[node],
{
    &&& a.wf()
    &&& 0 <= node < a.children.len()
    &&& node < b.children.len()
    &&& a.children[node] == b.children[node]
    &&& a.styles[node] == b.styles[node]
    &&& a.containers[node] == b.containers[node]
    &&& forall|i: int|
        0 <= i < a.children[node].len() ==> same_below(a, b, #[trigger] a.children[node][i] as int)
}

/// What a node answers without any cache depends on its subtree only.
pub proof fn lemma_fresh_local<F: Fn(usize, Size, u32) -> Size>(
    a: TreeShape,
    b: TreeShape,
    measure: &F,
    node: int,
    input: LayoutInput,
    answer: ComputedLayout,
)
    requires
        b.wf(),
        same_below(a, b, node),
    ensures
        fresh(a, measure, node, input, answer) == fresh(b, measure, node, input, answer),
    decreases a.bound - a.depth[node], 1nat,
{
    if a.containers[node] {
        match input {
            LayoutInput::ComputeSize { scale_factor, .. } => {
                assert forall|answers: Seq<ComputedLayout>|
                    fresh_children(a, measure, node, input, answers) == fresh_children(
                        b,
                        measure,
                        node,
                        input,
                        answers,
                    ) && #[trigger] measured_box(a, node, scale_factor, answers) == measured_box(
                        b,
                        node,
                        scale_factor,
                        answers,
                    ) by {
                    lemma_fresh_children_local(a, b, measure, node, input, answers);
                    assert forall|i: int| 0 <= i < a.children[node].len() implies a.styles[a.children[node][i] as int]
                        == b.styles[a.children[node][i] as int] by {
                        assert(same_below(a, b, a.children[node][i] as int));
                    }
                    assert(characteristics(a, node, answers) =~= characteristics(b, node, answers));
                }
                if fresh(a, measure, node, input, answer) {
                    let answers = choose|answers: Seq<ComputedLayout>|
                        fresh_children(a, measure, node, input, answers) && answer.margin_box
                            == #[trigger] measured_box(a, node, scale_factor, answers);
                    assert(answer.margin_box == measured_box(b, node, scale_factor, answers));
                }
                if fresh(b, measure, node, input, answer) {
                    let answers = choose|answers: Seq<ComputedLayout>|
                        fresh_children(b, measure, node, input, answers) && answer.margin_box
                            == #[trigger] measured_box(b, node, scale_factor, answers);
                    assert(answer.margin_box == measured_box(a, node, scale_factor, answers));
                }
            },
            LayoutInput::FinalLayout { .. } => {},
        }
    }
}

/// Whether the children of a node answer without any cache depends on
/// their subtrees only.
pub proof fn lemma_fresh_children_local<F: Fn(usize, Size, u32) -> Size>(
    a: TreeShape,
    b: TreeShape,
    measure: &F,
    node: int,
    input: LayoutInput,
    answers: Seq<ComputedLayout>,
)
    requires
        b.wf(),
        same_below(a, b, node),
    ensures
        fresh_children(a, measure, node, input, answers) == fresh_children(
            b,
            measure,
            node,
            input,
            answers,
        ),
    decreases a.bound - a.depth[node], 0nat,
{
    let request = child_request(a.styles[node], input.spec_offered(), input.spec_scale_factor());
    if answers.len() == a.children[node].len() {
        assert forall|i: int| 0 <= i < a.children[node].len() implies fresh(
            a,
            measure,
            a.children[node][i] as int,
            request,
            #[trigger] answers[i],
        ) == fresh(b, measure, b.children[node][i] as int, request, answers[i]) by {
            assert(same_below(a, b, a.children[node][i] as int));
            lemma_fresh_local(a, b, measure, a.children[node][i] as int, request, answers[i]);
        }
    }
}

/// Re-parenting moves the link: after it the ancestors of `new_child` are
/// `new_child` and what the ancestors of the parent were, and `old_child` is
/// its own only ancestor. So an invalidation of the new child climbs on to
/// the parent and all its ancestors, and one of the old child stays with the
/// old child.
pub proof fn lemma_relinked_exactly(
    parents: Seq<Option<usize>>,
    old_child: int,
    new_child: int,
    a: int,
)
    requires
        0 <= old_child < parents.len(),
        0 <= new_child < parents.len(),
        parents[old_child] is Some,
        parents[new_child] is None,
        parents[old_child]->Some_0 < parents.len(),
        !is_ancestor_or_self(parents, new_child, parents[old_child]->Some_0 as int),
        !is_ancestor_or_self(parents, old_child, parents[old_child]->Some_0 as int),
    ensures
        ({
            let parent = parents[old_child]->Some_0;
            let after = parents.update(old_child, None).update(new_child, Some(parent));
            &&& is_ancestor_or_self(after, a, new_child) <==> (a == new_child
                || is_ancestor_or_self(parents, a, parent as int))
            &&& is_ancestor_or_self(after, a, old_child) <==> a == old_child
        }),
{
    let parent = parents[old_child]->Some_0;
    let after = parents.update(old_child, None).update(new_child, Some(parent));
    lemma_relinked(parents, old_child, new_child, a);
    lemma_ancestor_unfold(after, a, new_child);
    lemma_ancestors_unchanged(parents, after, parent as int, a);
    lemma_ancestor_unfold(after, a, old_child);
}

/// A forest of layout nodes. A node is named by its index, which it keeps
/// for good.
pub struct LayoutTree {
    styles: Vec<ContainerLayoutStyle>,
    containers: Vec<bool>,
    parents: Vec<Option<usize>>,
    children: Vec<Vec<usize>>,
    caches: Vec<LayoutCache>,
    /// A depth for each node that is larger than that of its parent.
    rank: Ghost<Seq<nat>>,
    /// A number above every depth.
    bound: Ghost<nat>,
}

impl LayoutTree {
    /// The number of nodes.
    pub closed spec fn spec_len(&self) -> nat {
        self.parents@.len()
    }

    /// The parent link of each node.
    pub closed spec fn parents(&self) -> Seq<Option<usize>> {
        self.parents@
    }

    /// The children of each node, in order.
    pub closed spec fn child_lists(&self) -> Seq<Seq<usize>> {
        Seq::new(self.children@.len(), |i: int| self.children@[i]@)
    }

    /// The style of each node.
    pub closed spec fn styles(&self) -> Seq<ContainerLayoutStyle> {
        self.styles@
    }

    /// For each node, whether it arranges children.
    pub closed spec fn containers(&self) -> Seq<bool> {
        self.containers@
    }

    /// The cache of each node.
    pub closed spec fn caches(&self) -> Seq<LayoutCache> {
        self.caches@
    }

    /// Whether `self` and `other` have the same nodes with the same styles,
    /// links and children: they may differ in what the caches hold.
    pub open spec fn same_shape(&self, other: LayoutTree) -> bool {
        &&& self.spec_len() == other.spec_len()
        &&& self.parents() == other.parents()
        &&& self.child_lists() == other.child_lists()
        &&& self.styles() == other.styles()
        &&& self.containers() == other.containers()
    }

    spec fn sized(&self) -> bool {
        &&& self.styles@.len() == self.parents@.len()
        &&& self.containers@.len() == self.parents@.len()
        &&& self.children@.len() == self.parents@.len()
        &&& self.caches@.len() == self.parents@.len()
        &&& self.rank@.len() == self.parents@.len()
        &&& self.parents@.len() <= usize::MAX
    }

    spec fn link_ok(&self, n: int) -> bool {
        self.parents@[n] is Some ==> {
            let p = self.parents@[n]->Some_0;
            &&& p < self.parents@.len()
            &&& self.rank@[p as int] < self.rank@[n]
            &&& self.children@[p as int]@.contains(n as usize)
            &&& self.containers@[p as int]
        }
    }

    spec fn entry_ok(&self, p: int, i: int) -> bool {
        let c = self.children@[p]@[i];
        &&& c < self.parents@.len()
        &&& self.parents@[c as int] == Some(p as usize)
    }

    /// The links and child lists agree and hold no cycle: a node is linked
    /// to the node in whose child list it stands, it stands there once, only
    /// a container has children, and no node is its own ancestor.
    pub closed spec fn wf(&self) -> bool {
        &&& self.sized()
        &&& forall|n: int| 0 <= n < self.parents@.len() ==> #[trigger] self.rank@[n] < self.bound@
        &&& forall|n: int| 0 <= n < self.parents@.len() ==> #[trigger] self.link_ok(n)
        &&& forall|p: int, i: int|
            0 <= p < self.parents@.len() && 0 <= i < self.children@[p]@.len()
                ==> #[trigger] self.entry_ok(p, i)
        &&& forall|p: int|
            0 <= p < self.parents@.len() ==> #[trigger] self.children@[p]@.no_duplicates()
    }

    /// The five sequences have one entry for each node.
    pub proof fn lemma_lengths(&self)
        requires
            self.wf(),
        ensures
            self.parents().len() == self.spec_len(),
            self.child_lists().len() == self.spec_len(),
            self.styles().len() == self.spec_len(),
            self.containers().len() == self.spec_len(),
            self.caches().len() == self.spec_len(),
    {
    }

    /// In a well-formed tree a node with a link is linked to a container
    /// other than itself, in whose child list it stands.
    pub proof fn lemma_link(&self, n: int)
        requires
            self.wf(),
            0 <= n < self.spec_len(),
            self.parents()[n] is Some,
        ensures
            self.parents()[n]->Some_0 < self.spec_len(),
            self.parents()[n]->Some_0 != n,
            self.child_lists()[self.parents()[n]->Some_0 as int].contains(n as usize),
            self.containers()[self.parents()[n]->Some_0 as int],
    {
        assert(self.link_ok(n));
    }

    /// In a well-formed tree a node in a child list is linked to the owner
    /// of the list, and stands in the list once.
    pub proof fn lemma_child(&self, p: int, i: int)
        requires
            self.wf(),
            0 <= p < self.spec_len(),
            0 <= i < self.child_lists()[p].len(),
        ensures
            self.child_lists()[p][i] < self.spec_len(),
            self.child_lists()[p][i] != p,
            self.parents()[self.child_lists()[p][i] as int] == Some(p as usize),
            forall|j: int|
                0 <= j < self.child_lists()[p].len() && j != i ==> self.child_lists()[p][j]
                    != self.child_lists()[p][i],
    {
        assert(self.entry_ok(p, i));
        let c = self.children@[p]@[i] as int;
        assert(self.link_ok(c));
        assert(self.children@[p]@.no_duplicates());
    }

    /// Climbing `k` links from `n` reaches a node that lies at least `k`
    /// lower in depth.
    proof fn lemma_up_rank(&self, n: int, k: nat)
        requires
            self.wf(),
            0 <= n < self.parents@.len(),
            up(self.parents@, n, k) is Some,
        ensures
            0 <= up(self.parents@, n, k)->Some_0 < self.parents@.len(),
            self.rank@[up(self.parents@, n, k)->Some_0] + k <= self.rank@[n],
        decreases k,
    {
        if k > 0 {
            let j = (k - 1) as nat;
            self.lemma_up_rank(n, j);
            let m = up(self.parents@, n, j)->Some_0;
            assert(self.link_ok(m));
        }
    }

    /// An ancestor of a node other than the node lies strictly higher.
    proof fn lemma_ancestor_rank(&self, a: int, n: int)
        requires
            self.wf(),
            0 <= n < self.parents@.len(),
            is_ancestor_or_self(self.parents@, a, n),
        ensures
            0 <= a < self.parents@.len(),
            self.rank@[a] <= self.rank@[n],
            a != n ==> self.rank@[a] < self.rank@[n],
    {
        let k = choose|k: nat| up(self.parents@, n, k) == Some(a);
        self.lemma_up_rank(n, k);
    }

    /// In a well-formed tree a child is not an ancestor of its parent, nor
    /// of any other child of its parent.
    pub proof fn lemma_no_cycle(&self, c: int, n: int)
        requires
            self.wf(),
            0 <= n < self.spec_len(),
            0 <= c < self.spec_len(),
            c != n,
            self.parents()[c] is Some,
            self.parents()[c] == self.parents()[n] || self.parents()[c] == Some(n as usize),
        ensures
            !is_ancestor_or_self(self.parents(), c, n),
    {
        if is_ancestor_or_self(self.parents@, c, n) {
            let p = self.parents@[c]->Some_0 as int;
            assert(self.link_ok(c));
            assert(self.rank@[p] < self.rank@[c]);
            if p == n {
                self.lemma_ancestor_rank(c, n);
                assert(false);
            } else {
                lemma_ancestor_unfold(self.parents@, c, n);
                assert(is_ancestor_or_self(self.parents@, c, p));
                self.lemma_ancestor_rank(c, p);
                assert(false);
            }
        }
    }

    /// A number for each node that is smaller for a child than for its
    /// parent: what a descent through the tree counts down.
    pub closed spec fn slack(&self, node: int) -> nat {
        (self.bound@ - self.rank@[node]) as nat
    }

    /// The slack of a child is smaller than that of its parent.
    pub proof fn lemma_child_slack(&self, p: int, i: int)
        requires
            self.wf(),
            0 <= p < self.spec_len(),
            0 <= i < self.child_lists()[p].len(),
        ensures
            self.slack(self.child_lists()[p][i] as int) < self.slack(p),
    {
        assert(self.entry_ok(p, i));
        let c = self.children@[p]@[i] as int;
        assert(self.link_ok(c));
        assert(self.rank@[c] < self.bound@);
        assert(self.rank@[p] < self.bound@);
    }

    /// An invalidation spares the subtrees beside it: no node of the subtree
    /// of a sibling of `node` is `node` or one of its ancestors.
    pub proof fn lemma_sibling_subtree_apart(&self, node: int, sibling: int, m: int)
        requires
            self.wf(),
            0 <= node < self.spec_len(),
            0 <= sibling < self.spec_len(),
            0 <= m < self.spec_len(),
            node != sibling,
            self.parents()[sibling] is Some,
            self.parents()[sibling] == self.parents()[node],
            is_ancestor_or_self(self.parents(), sibling, m),
        ensures
            !is_ancestor_or_self(self.parents(), m, node),
    {
        if is_ancestor_or_self(self.parents@, m, node) {
            self.lemma_ancestor_rank(sibling, m);
            assert(self.link_ok(sibling));
            let p = self.parents@[sibling]->Some_0 as int;
            if m == node {
                self.lemma_no_cycle(sibling, node);
            } else {
                lemma_ancestor_unfold(self.parents@, m, node);
                self.lemma_ancestor_rank(m, p);
            }
        }
    }

    /// The subtrees of two children of a node have no node in common, and
    /// the node is in neither; a node of the subtree of a child is in the
    /// subtree of the node.
    pub proof fn lemma_child_subtrees(&self, p: int, i: int, j: int, m: int)
        requires
            self.wf(),
            0 <= p < self.spec_len(),
            0 <= i < self.child_lists()[p].len(),
            0 <= j < self.child_lists()[p].len(),
            0 <= m < self.spec_len(),
            is_ancestor_or_self(self.parents(), self.child_lists()[p][i] as int, m),
        ensures
            i != j ==> !is_ancestor_or_self(self.parents(), self.child_lists()[p][j] as int, m),
            m != p,
            is_ancestor_or_self(self.parents(), p, m),
    {
        let ci = self.child_lists()[p][i] as int;
        let cj = self.child_lists()[p][j] as int;
        self.lemma_child(p, i);
        self.lemma_child(p, j);
        self.lemma_lengths();
        if i != j && is_ancestor_or_self(self.parents(), cj, m) {
            lemma_ancestors_comparable(self.parents(), ci, cj, m);
            self.lemma_no_cycle(ci, cj);
            self.lemma_no_cycle(cj, ci);
        }
        if m == p {
            self.lemma_no_cycle(ci, p);
        }
        lemma_ancestor_extend(self.parents(), ci, m);
    }

    /// The same request is computed once: where a call for the answer of
    /// `node` to `input` has led from `first` to `second`, the next such
    /// call returns the same answer and changes no cache.
    pub proof fn lemma_asked_twice<F: Fn(usize, Size, u32) -> Size>(
        first: LayoutTree,
        second: LayoutTree,
        third: LayoutTree,
        node: int,
        input: LayoutInput,
        answer: ComputedLayout,
        again: ComputedLayout,
        measure: &F,
    )
        requires
            second.computed(first, node, input, answer, measure),
            third.computed(second, node, input, again, measure),
        ensures
            again == answer,
            third.caches() == second.caches(),
    {
    }

    /// What the answers of the tree depend on.
    pub closed spec fn shape(&self) -> TreeShape {
        TreeShape {
            children: self.child_lists(),
            styles: self.styles@,
            containers: self.containers@,
            depth: self.rank@,
            bound: self.bound@,
        }
    }

    /// The shape of a well-formed tree is well-formed, and holds the
    /// children, styles and kinds of the nodes.
    pub proof fn lemma_shape(&self)
        requires
            self.wf(),
        ensures
            self.shape().wf(),
            self.shape().children == self.child_lists(),
            self.shape().styles == self.styles(),
            self.shape().containers == self.containers(),
    {
        let shape = self.shape();
        assert forall|n: int| 0 <= n < shape.children.len() implies #[trigger] shape.depth[n]
            < shape.bound by {
            assert(self.rank@[n] < self.bound@);
        }
        assert forall|p: int, i: int|
            0 <= p < shape.children.len() && 0 <= i < shape.children[p].len() implies (
        #[trigger] shape.children[p][i]) < shape.children.len() && shape.depth[p]
            < shape.depth[shape.children[p][i] as int] by {
            assert(self.entry_ok(p, i));
            assert(self.link_ok(self.children@[p]@[i] as int));
        }
    }

    /// Whether every valid slot of the tree holds an answer to its request
    /// that is computed as [`fresh`] says, with `measure` to measure the
    /// nodes without children.
    pub open spec fn sound<F: Fn(usize, Size, u32) -> Size>(&self, measure: &F) -> bool {
        forall|m: int, kind: Shape|
            0 <= m < self.spec_len() && (#[trigger] self.caches()[m].spec_slot(kind)).is_valid
                ==> fresh(
                self.shape(),
                measure,
                m,
                self.caches()[m].spec_slot(kind).with_input,
                self.caches()[m].spec_slot(kind).cached,
            )
    }

    /// A tree without a valid slot is sound, and what a sound tree answers
    /// from a cache is computed as [`fresh`] says.
    pub proof fn lemma_sound<F: Fn(usize, Size, u32) -> Size>(
        &self,
        measure: &F,
        node: int,
        input: LayoutInput,
    )
        requires
            0 <= node < self.spec_len(),
        ensures
            (forall|m: int| 0 <= m < self.spec_len() ==> !(#[trigger] self.caches()[m]).spec_any_valid())
                ==> self.sound(measure),
            self.sound(measure) && self.caches()[node].spec_lookup(input) is Some ==> fresh(
                self.shape(),
                measure,
                node,
                input,
                self.caches()[node].spec_lookup(input)->Some_0,
            ),
    {
        if forall|m: int| 0 <= m < self.spec_len() ==> !(#[trigger] self.caches()[m]).spec_any_valid() {
            assert forall|m: int, kind: Shape|
                0 <= m < self.spec_len() implies !(#[trigger] self.caches()[m].spec_slot(
                kind,
            )).is_valid by {
                assert(!self.caches()[m].spec_any_valid());
            }
        }
        if self.sound(measure) && self.caches()[node].spec_lookup(input) is Some {
            assert(self.caches()[node].spec_slot(input.spec_shape()).is_valid);
        }
    }

    /// A node keeps its subtree through a change of the tree at `changed`,
    /// unless it is `changed` or one of its ancestors.
    proof fn lemma_same_below(&self, after: LayoutTree, changed: int, m: int)
        requires
            self.wf(),
            after.wf(),
            after.spec_len() >= self.spec_len(),
            forall|x: int|
                0 <= x < self.spec_len() && x != changed ==> {
                    &&& (#[trigger] after.child_lists()[x]) == self.child_lists()[x]
                    &&& after.styles()[x] == self.styles()[x]
                    &&& after.containers()[x] == self.containers()[x]
                },
            0 <= m < self.spec_len(),
            !is_ancestor_or_self(self.parents(), m, changed),
        ensures
            same_below(self.shape(), after.shape(), m),
        decreases self.slack(m),
    {
        self.lemma_shape();
        after.lemma_shape();
        self.lemma_lengths();
        after.lemma_lengths();
        assert(up(self.parents(), changed, 0) == Some(changed));
        assert(m != changed);
        assert(after.child_lists()[m] == self.child_lists()[m]);
        assert forall|i: int| 0 <= i < self.shape().children[m].len() implies same_below(
            self.shape(),
            after.shape(),
            #[trigger] self.shape().children[m][i] as int,
        ) by {
            let c = self.child_lists()[m][i] as int;
            self.lemma_child(m, i);
            self.lemma_child_slack(m, i);
            if is_ancestor_or_self(self.parents(), c, changed) {
                lemma_ancestor_extend(self.parents(), c, changed);
            }
            self.lemma_same_below(after, changed, c);
        }
    }

    /// A change of the tree keeps it sound if it invalidates what it
    /// touches: where the tree was sound, every node but `changed` has kept
    /// its children, style and kind, and every cache is without a valid slot
    /// or is as it was and belongs to a node that is neither `changed` nor
    /// one of its ancestors, the tree is sound. This holds of
    /// [`Self::add_child`], [`Self::remove_child`] and [`Self::swap_child`]
    /// with the parent as `changed`, of [`Self::set_style`] with the node,
    /// and of [`Self::add_leaf`] and [`Self::add_container`] with the new
    /// node.
    pub proof fn lemma_sound_after_change<F: Fn(usize, Size, u32) -> Size>(
        &self,
        before: LayoutTree,
        measure: &F,
        changed: int,
    )
        requires
            before.wf(),
            self.wf(),
            before.sound(measure),
            self.spec_len() >= before.spec_len(),
            forall|x: int|
                0 <= x < before.spec_len() && x != changed ==> {
                    &&& (#[trigger] self.child_lists()[x]) == before.child_lists()[x]
                    &&& self.styles()[x] == before.styles()[x]
                    &&& self.containers()[x] == before.containers()[x]
                },
            forall|m: int|
                0 <= m < self.spec_len() ==> !(#[trigger] self.caches()[m]).spec_any_valid() || (m
                    < before.spec_len() && self.caches()[m] == before.caches()[m] && if 0
                    <= changed < before.spec_len() {
                    !is_ancestor_or_self(before.parents(), m, changed)
                } else {
                    m != changed
                }),
        ensures
            self.sound(measure),
    {
        self.lemma_shape();
        before.lemma_lengths();
        assert forall|m: int|
            0 <= m < before.spec_len() && m != changed && !(0 <= changed
                < before.spec_len()) implies !is_ancestor_or_self(
            before.parents(),
            m,
            changed,
        ) by {
            if is_ancestor_or_self(before.parents(), m, changed) {
                let k = choose|k: nat| up(before.parents(), changed, k) == Some(m);
                assert(k > 0);
                lemma_up_root(before.parents(), changed, (k - 1) as nat);
            }
        }
        assert forall|m: int, kind: Shape|
            0 <= m < self.spec_len() && (#[trigger] self.caches()[m].spec_slot(
                kind,
            )).is_valid implies fresh(
            self.shape(),
            measure,
            m,
            self.caches()[m].spec_slot(kind).with_input,
            self.caches()[m].spec_slot(kind).cached,
        ) by {
            assert(self.caches()[m].spec_any_valid());
            assert(before.caches()[m].spec_slot(kind).is_valid);
            before.lemma_same_below(*self, changed, m);
            lemma_fresh_local(
                before.shape(),
                self.shape(),
                measure,
                m,
                self.caches()[m].spec_slot(kind).with_input,
                self.caches()[m].spec_slot(kind).cached,
            );
        }
    }

    /// Invalidation keeps a sound tree sound: where the shape is the same
    /// and every slot is as it was or was made invalid, soundness stays.
    pub proof fn lemma_sound_kept<F: Fn(usize, Size, u32) -> Size>(
        &self,
        before: LayoutTree,
        measure: &F,
    )
        requires
            before.sound(measure),
            self.shape() == before.shape(),
            self.spec_len() == before.spec_len(),
            forall|m: int|
                0 <= m < self.spec_len() ==> (#[trigger] self.caches()[m]) == before.caches()[m]
                    || self.caches()[m] == before.caches()[m].invalidated(),
        ensures
            self.sound(measure),
    {
        assert forall|m: int, kind: Shape|
            0 <= m < self.spec_len() && (#[trigger] self.caches()[m].spec_slot(
                kind,
            )).is_valid implies fresh(
            self.shape(),
            measure,
            m,
            self.caches()[m].spec_slot(kind).with_input,
            self.caches()[m].spec_slot(kind).cached,
        ) by {
            assert(self.caches()[m] == before.caches()[m] || self.caches()[m]
                == before.caches()[m].invalidated());
            assert(before.caches()[m].spec_slot(kind).is_valid);
        }
    }

    /// The nodes of the subtree of `node`, each before its children and
    /// the children in their order.
    pub open spec fn preorder(&self, node: int) -> Seq<usize>
        decreases self.slack(node), self.child_lists()[node].len() + 1,
    {
        seq![node as usize] + self.preorder_of_children(
            node,
            self.child_lists()[node].len() as int,
        )
    }

    /// The nodes of the subtrees of the first `upto` children of `node`, see
    /// [`Self::preorder`].
    pub open spec fn preorder_of_children(&self, node: int, upto: int) -> Seq<usize>
        decreases self.slack(node), upto,
    {
        if upto <= 0 || upto > self.child_lists()[node].len() || !self.wf() || !(0 <= node
            < self.spec_len()) {
            Seq::empty()
        } else {
            proof {
                self.lemma_child_slack(node, upto - 1);
            }
            self.preorder_of_children(node, upto - 1) + self.preorder(
                self.child_lists()[node][upto - 1] as int,
            )
        }
    }

    /// The nodes of the subtree of `node`, each before its children and the
    /// children in their order, see [`Self::preorder`].
    pub fn subtree(&self, node: usize) -> (r: Vec<usize>)
        requires
            self.wf(),
            node < self.spec_len(),
        ensures
            r@ == self.preorder(node as int),
    {
        let mut nodes: Vec<usize> = Vec::new();
        self.collect_subtree(node, &mut nodes);
        assert(nodes@ =~= self.preorder(node as int));
        nodes
    }

    /// Appends the nodes of the subtree of `node` to `nodes`, see
    /// [`Self::preorder`].
    fn collect_subtree(&self, node: usize, nodes: &mut Vec<usize>)
        requires
            self.wf(),
            node < self.spec_len(),
        ensures
            final(nodes)@ == old(nodes)@ + self.preorder(node as int),
        decreases self.slack(node as int),
    {
        nodes.push(node);
        let count = self.children[node].len();
        let mut i: usize = 0;
        assert(nodes@ =~= old(nodes)@ + seq![node] + self.preorder_of_children(node as int, 0));
        while i < count
            invariant
                self.wf(),
                node < self.spec_len(),
                count == self.child_lists()[node as int].len(),
                i <= count,
                nodes@ == old(nodes)@ + seq![node] + self.preorder_of_children(
                    node as int,
                    i as int,
                ),
            decreases count - i,
        {
            proof {
                self.lemma_child(node as int, i as int);
                self.lemma_child_slack(node as int, i as int);
            }
            let child = self.children[node][i];
            self.collect_subtree(child, nodes);
            proof {
                assert(nodes@ =~= old(nodes)@ + seq![node] + self.preorder_of_children(
                    node as int,
                    i as int + 1,
                ));
            }
            i = i + 1;
        }
        proof {
            assert(nodes@ =~= old(nodes)@ + self.preorder(node as int));
        }
    }

    /// An empty forest.
    pub fn new() -> (r: LayoutTree)
        ensures
            r.wf(),
            r.spec_len() == 0,
    {
        LayoutTree {
            styles: Vec::new(),
            containers: Vec::new(),
            parents: Vec::new(),
            children: Vec::new(),
            caches: Vec::new(),
            rank: Ghost(Seq::empty()),
            bound: Ghost(1),
        }
    }

    /// The number of nodes.
    pub fn len(&self) -> (r: usize)
        ensures
            r == self.spec_len(),
    {
        self.parents.len()
    }

    fn add_node(&mut self, style: ContainerLayoutStyle, is_container: bool) -> (r: usize)
        requires
            old(self).wf(),
        ensures
            final(self).wf(),
            r == old(self).spec_len(),
            final(self).spec_len() == old(self).spec_len() + 1,
            final(self).parents() == old(self).parents().push(None),
            final(self).child_lists() == old(self).child_lists().push(Seq::empty()),
            final(self).styles() == old(self).styles().push(style),
            final(self).containers() == old(self).containers().push(is_container),
            final(self).caches() == old(self).caches().push(LayoutCache::spec_new()),
    {
        let id = self.parents.len();
        self.styles.push(style);
        self.containers.push(is_container);
        self.parents.push(None);
        self.children.push(Vec::new());
        self.caches.push(LayoutCache::new());
        // Reading the length tells that it fits a `usize`.
        let count = self.parents.len();
        proof {
            self.rank@ = self.rank@.push(0);
            self.bound@ = self.bound@ + 1;
            assert(self.child_lists() =~= old(self).child_lists().push(Seq::empty()));
            assert forall|n: int| 0 <= n < self.parents@.len() implies #[trigger] self.link_ok(
                n,
            ) by {
                if n < id {
                    assert(old(self).link_ok(n));
                }
            }
            assert forall|p: int, i: int|
                0 <= p < self.parents@.len() && 0 <= i < self.children@[p]@.len()
                    implies #[trigger] self.entry_ok(p, i) by {
                if p < id {
                    assert(old(self).entry_ok(p, i));
                }
            }
            assert forall|p: int| 0 <= p < self.parents@.len() implies (
            #[trigger] self.children@[p]@).no_duplicates() by {
                if p < id {
                    assert(old(self).children@[p]@.no_duplicates());
                }
            }
            assert forall|n: int| 0 <= n < self.parents@.len() implies #[trigger] self.rank@[n]
                < self.bound@ by {
                if n < id {
                    assert(old(self).rank@[n] < old(self).bound@);
                }
            }
        }
        id
    }

    /// Adds a node without children and without parent, with an empty
    /// cache. Its index is the number of nodes before.
    pub fn add_leaf(&mut self, style: LayoutStyle) -> (r: usize)
        requires
            old(self).wf(),
        ensures
            final(self).wf(),
            r == old(self).spec_len(),
            final(self).spec_len() == old(self).spec_len() + 1,
            final(self).parents() == old(self).parents().push(None),
            final(self).child_lists() == old(self).child_lists().push(Seq::empty()),
            final(self).styles() == old(self).styles().push(leaf_style(style)),
            final(self).containers() == old(self).containers().push(false),
            final(self).caches() == old(self).caches().push(LayoutCache::spec_new()),
    {
        self.add_node(
            ContainerLayoutStyle {
                layout_style: style,
                main_axis: Axis::Vertical,
                main_direction: Direction::Positive,
                main_justify: Justify::Min,
                cross_justify: Justify::Min,
            },
            false,
        )
    }

    /// Adds a node that arranges children, without children yet and without
    /// parent, with an empty cache. Its index is the number of nodes before.
    pub fn add_container(&mut self, style: ContainerLayoutStyle) -> (r: usize)
        requires
            old(self).wf(),
        ensures
            final(self).wf(),
            r == old(self).spec_len(),
            final(self).spec_len() == old(self).spec_len() + 1,
            final(self).parents() == old(self).parents().push(None),
            final(self).child_lists() == old(self).child_lists().push(Seq::empty()),
            final(self).styles() == old(self).styles().push(style),
            final(self).containers() == old(self).containers().push(true),
            final(self).caches() == old(self).caches().push(LayoutCache::spec_new()),
    {
        self.add_node(style, true)
    }

    /// The parent link of `node`.
    pub fn parent(&self, node: usize) -> (r: Option<usize>)
        requires
            self.wf(),
            node < self.spec_len(),
        ensures
            r == self.parents()[node as int],
    {
        self.parents[node]
    }

    /// How many children `node` has.
    pub fn child_count(&self, node: usize) -> (r: usize)
        requires
            self.wf(),
            node < self.spec_len(),
        ensures
            r == self.child_lists()[node as int].len(),
    {
        self.children[node].len()
    }

    /// The child of `node` at position `i`.
    pub fn child(&self, node: usize, i: usize) -> (r: usize)
        requires
            self.wf(),
            node < self.spec_len(),
            i < self.child_lists()[node as int].len(),
        ensures
            r == self.child_lists()[node as int][i as int],
            r < self.spec_len(),
    {
        proof {
            self.lemma_child(node as int, i as int);
        }
        self.children[node][i]
    }

    /// The style of `node`.
    pub fn style(&self, node: usize) -> (r: ContainerLayoutStyle)
        requires
            self.wf(),
            node < self.spec_len(),
        ensures
            r == self.styles()[node as int],
    {
        self.styles[node]
    }

    /// Whether `node` arranges children.
    pub fn is_container(&self, node: usize) -> (r: bool)
        requires
            self.wf(),
            node < self.spec_len(),
        ensures
            r == self.containers()[node as int],
    {
        self.containers[node]
    }

    /// The cache of `node`.
    pub fn cache(&self, node: usize) -> (r: LayoutCache)
        requires
            self.wf(),
            node < self.spec_len(),
        ensures
            r == self.caches()[node as int],
    {
        self.caches[node]
    }

    /// Replaces the style of `node`, and invalidates `node`: every slot of
    /// `node` and of each of its ancestors is invalid afterwards, and every
    /// other cache is as it was.
    pub fn set_style(&mut self, node: usize, style: LayoutStyle)
        requires
            old(self).wf(),
            node < old(self).spec_len(),
        ensures
            final(self).wf(),
            final(self).spec_len() == old(self).spec_len(),
            final(self).parents() == old(self).parents(),
            final(self).child_lists() == old(self).child_lists(),
            final(self).containers() == old(self).containers(),
            final(self).styles() == old(self).styles().update(
                node as int,
                (ContainerLayoutStyle { layout_style: style, ..old(self).styles()[node as int] }),
            ),
            final(self).caches().len() == old(self).caches().len(),
            forall|m: int|
                0 <= m < old(self).spec_len() ==> (#[trigger] final(self).caches()[m])
                    == if is_ancestor_or_self(old(self).parents(), m, node as int) {
                    old(self).caches()[m].invalidated()
                } else {
                    old(self).caches()[m]
                },
    {
        let before = self.styles[node];
        self.styles.set(node, ContainerLayoutStyle { layout_style: style, ..before });
        proof {
            self.lemma_kept(*old(self));
        }
        self.invalidate(node);
    }

    /// A tree that differs from a well-formed one only in styles and caches
    /// is well-formed.
    proof fn lemma_kept(&self, before: LayoutTree)
        requires
            before.wf(),
            self.parents@ == before.parents@,
            self.children@ == before.children@,
            self.containers@ == before.containers@,
            self.rank@ == before.rank@,
            self.bound@ == before.bound@,
            self.styles@.len() == before.styles@.len(),
            self.caches@.len() == before.caches@.len(),
        ensures
            self.wf(),
            self.child_lists() == before.child_lists(),
    {
        assert forall|n: int| 0 <= n < self.parents@.len() implies #[trigger] self.link_ok(
            n,
        ) by {
            assert(before.link_ok(n));
        }
        assert forall|p: int, i: int|
            0 <= p < self.parents@.len() && 0 <= i < self.children@[p]@.len()
                implies #[trigger] self.entry_ok(p, i) by {
            assert(before.entry_ok(p, i));
        }
        assert(self.child_lists() =~= before.child_lists());
    }

    /// Whether `a` is `n` or one of its ancestors.
    pub fn is_ancestor_or_self(&self, a: usize, n: usize) -> (r: bool)
        requires
            self.wf(),
            n < self.spec_len(),
        ensures
            r == is_ancestor_or_self(self.parents(), a as int, n as int),
    {
        let mut cur = n;
        let ghost mut k: nat = 0;
        loop
            invariant
                self.wf(),
                cur < self.parents@.len(),
                up(self.parents@, n as int, k) == Some(cur as int),
                forall|i: nat| i < k ==> up(self.parents@, n as int, i) != Some(a as int),
            decreases self.rank@[cur as int],
        {
            if cur == a {
                return true;
            }
            match self.parents[cur] {
                None => {
                    proof {
                        assert forall|j: nat| up(self.parents@, n as int, j) != Some(
                            a as int,
                        ) by {
                            if j > k {
                                assert(up(self.parents@, n as int, k + 1) is None);
                                lemma_up_ended(self.parents@, n as int, k + 1, j);
                            }
                        }
                    }
                    return false;
                },
                Some(p) => {
                    proof {
                        assert(self.link_ok(cur as int));
                        assert(up(self.parents@, n as int, k + 1) == Some(p as int));
                        k = k + 1;
                    }
                    cur = p;
                },
            }
        }
    }

    /// Makes every slot of `node` and of each of its ancestors invalid.
    /// Every other cache stays as it is, and so does the shape of the tree.
    pub fn invalidate(&mut self, node: usize)
        requires
            old(self).wf(),
            node < old(self).spec_len(),
        ensures
            final(self).wf(),
            final(self).same_shape(*old(self)),
            final(self).shape() == old(self).shape(),
            final(self).caches().len() == old(self).caches().len(),
            forall|m: int|
                0 <= m < old(self).spec_len() ==> #[trigger] final(self).caches()[m] == if is_ancestor_or_self(
                    old(self).parents(),
                    m,
                    node as int,
                ) {
                    old(self).caches()[m].invalidated()
                } else {
                    old(self).caches()[m]
                },
    {
        let mut cur = node;
        let ghost mut k: nat = 0;
        let mut cache = self.caches[cur];
        cache.invalidate();
        self.caches.set(cur, cache);
        proof {
            assert(up(self.parents@, node as int, 0) == Some(node as int));
        }
        loop
            invariant
                old(self).wf(),
                self.parents@ == old(self).parents@,
                self.children@ == old(self).children@,
                self.containers@ == old(self).containers@,
                self.styles@ == old(self).styles@,
                self.rank@ == old(self).rank@,
                self.bound@ == old(self).bound@,
                self.caches@.len() == old(self).caches@.len(),
                cur < self.parents@.len(),
                up(self.parents@, node as int, k) == Some(cur as int),
                forall|m: int|
                    0 <= m < self.caches@.len() ==> #[trigger] self.caches@[m] == if on_chain(
                        self.parents@,
                        node as int,
                        k,
                        m,
                    ) {
                        old(self).caches@[m].invalidated()
                    } else {
                        old(self).caches@[m]
                    },
            ensures
                forall|m: int|
                    0 <= m < self.caches@.len() ==> on_chain(self.parents@, node as int, k, m)
                        == is_ancestor_or_self(self.parents@, m, node as int),
            decreases self.rank@[cur as int],
        {
            match self.parents[cur] {
                None => {
                    proof {
                        assert forall|m: int| 0 <= m < self.caches@.len() implies on_chain(
                            self.parents@,
                            node as int,
                            k,
                            m,
                        ) == is_ancestor_or_self(self.parents@, m, node as int) by {
                            if is_ancestor_or_self(self.parents@, m, node as int) {
                                let j = choose|j: nat| up(self.parents@, node as int, j) == Some(m);
                                if j > k {
                                    assert(up(self.parents@, node as int, k + 1) is None);
                                    lemma_up_ended(self.parents@, node as int, k + 1, j);
                                }
                            }
                        }
                    }
                    break ;
                },
                Some(p) => {
                    proof {
                        assert(old(self).link_ok(cur as int));
                        assert(up(self.parents@, node as int, k + 1) == Some(p as int));
                    }
                    let ghost before = self.caches@;
                    let mut cache = self.caches[p];
                    cache.invalidate();
                    self.caches.set(p, cache);
                    proof {
                        assert forall|m: int|
                            0 <= m < self.caches@.len() implies #[trigger] self.caches@[m]
                            == if on_chain(self.parents@, node as int, k + 1, m) {
                            old(self).caches@[m].invalidated()
                        } else {
                            old(self).caches@[m]
                        } by {
                            if on_chain(self.parents@, node as int, k + 1, m) {
                                let i = choose|i: nat|
                                    i <= k + 1 && up(self.parents@, node as int, i) == Some(m);
                                if i <= k {
                                    assert(on_chain(self.parents@, node as int, k, m));
                                }
                            } else {
                                if on_chain(self.parents@, node as int, k, m) {
                                    let i = choose|i: nat|
                                        i <= k && up(self.parents@, node as int, i) == Some(m);
                                    assert(i <= k + 1);
                                }
                            }
                        }
                        k = k + 1;
                    }
                    cur = p;
                },
            }
        }
        proof {
            self.lemma_kept(*old(self));
        }
    }

    /// Re-parents: puts `new_child`, which has no parent, in the place of
    /// `old_child` in the child list of its parent, so that the link of
    /// `old_child` is removed and `new_child` is linked in its stead; then
    /// invalidates `new_child`. The invalidation climbs along the new link:
    /// every slot of `new_child`, of the parent and of each ancestor of the
    /// parent is invalid afterwards, and every other cache is as it was.
    /// From then on the ancestors of `new_child` are those of the parent,
    /// and `old_child` has none: an invalidation of the new child reaches
    /// them, one of the old child does not. `new_child` must not be the
    /// parent or one of its ancestors.
    pub fn swap_child(&mut self, old_child: usize, new_child: usize)
        requires
            old(self).wf(),
            old_child < old(self).spec_len(),
            new_child < old(self).spec_len(),
            old(self).parents()[old_child as int] is Some,
            old(self).parents()[new_child as int] is None,
            !is_ancestor_or_self(
                old(self).parents(),
                new_child as int,
                old(self).parents()[old_child as int]->Some_0 as int,
            ),
        ensures
            final(self).wf(),
            final(self).spec_len() == old(self).spec_len(),
            final(self).parents() == old(self).parents().update(old_child as int, None).update(
                new_child as int,
                old(self).parents()[old_child as int],
            ),
            ({
                let p = old(self).parents()[old_child as int]->Some_0 as int;
                let list = old(self).child_lists()[p];
                final(self).child_lists() == old(self).child_lists().update(
                    p,
                    list.update(list.index_of(old_child), new_child),
                )
            }),
            final(self).styles() == old(self).styles(),
            final(self).containers() == old(self).containers(),
            final(self).caches().len() == old(self).caches().len(),
            forall|m: int|
                0 <= m < old(self).spec_len() ==> #[trigger] final(self).caches()[m] == if is_ancestor_or_self(
                    final(self).parents(),
                    m,
                    new_child as int,
                ) {
                    old(self).caches()[m].invalidated()
                } else {
                    old(self).caches()[m]
                },
            forall|a: int|
                0 <= a < old(self).spec_len() && is_ancestor_or_self(
                    old(self).parents(),
                    a,
                    old(self).parents()[old_child as int]->Some_0 as int,
                ) ==> #[trigger] final(self).caches()[a] == old(self).caches()[a].invalidated(),
            final(self).caches()[old_child as int] == old(self).caches()[old_child as int],
            forall|a: int|
                #![trigger is_ancestor_or_self(final(self).parents(), a, new_child as int)]
                is_ancestor_or_self(final(self).parents(), a, new_child as int) <==> (a
                    == new_child || is_ancestor_or_self(
                    old(self).parents(),
                    a,
                    old(self).parents()[old_child as int]->Some_0 as int,
                )),
            forall|a: int|
                #![trigger is_ancestor_or_self(final(self).parents(), a, old_child as int)]
                is_ancestor_or_self(final(self).parents(), a, old_child as int) <==> a
                    == old_child,
    {
        proof {
            assert(self.link_ok(old_child as int));
            self.lemma_lengths();
            self.lemma_no_cycle(
                old_child as int,
                self.parents@[old_child as int]->Some_0 as int,
            );
        }
        self.replace_child(old_child, new_child);
        let ghost relinked = *self;
        self.invalidate(new_child);
        proof {
            assert forall|a: int|
                #![trigger is_ancestor_or_self(self.parents(), a, new_child as int)]
                is_ancestor_or_self(self.parents(), a, new_child as int) <==> (a == new_child
                    || is_ancestor_or_self(
                    old(self).parents(),
                    a,
                    old(self).parents()[old_child as int]->Some_0 as int,
                )) by {
                lemma_relinked_exactly(old(self).parents(), old_child as int, new_child as int, a);
            }
            assert forall|a: int|
                #![trigger is_ancestor_or_self(self.parents(), a, old_child as int)]
                is_ancestor_or_self(self.parents(), a, old_child as int) <==> a == old_child by {
                lemma_relinked_exactly(old(self).parents(), old_child as int, new_child as int, a);
            }
            assert forall|a: int|
                0 <= a < old(self).spec_len() && is_ancestor_or_self(
                    old(self).parents(),
                    a,
                    old(self).parents()[old_child as int]->Some_0 as int,
                ) implies #[trigger] self.caches()[a] == old(self).caches()[a].invalidated() by {
                lemma_relinked(old(self).parents(), old_child as int, new_child as int, a);
            }
            lemma_relinked(
                old(self).parents(),
                old_child as int,
                new_child as int,
                new_child as int,
            );
            lemma_ancestor_unfold(relinked.parents(), old_child as int, new_child as int);
            assert(relinked.link_ok(new_child as int));
            if is_ancestor_or_self(relinked.parents(), old_child as int, new_child as int) {
                let p = relinked.parents@[new_child as int]->Some_0 as int;
                let k = choose|k: nat| up(relinked.parents(), p, k) == Some(old_child as int);
                lemma_up_unchanged(old(self).parents(), relinked.parents(), p, k);
                assert(is_ancestor_or_self(old(self).parents(), old_child as int, p));
            }
        }
    }

    /// The depths after the subtree of `child` was moved below `parent`.
    spec fn shifted(&self, child: int, parent: int) -> Seq<nat> {
        Seq::new(
            self.rank@.len(),
            |x: int|
                if is_ancestor_or_self(self.parents@, child, x) {
                    self.rank@[x] + self.rank@[parent] + 1
                } else {
                    self.rank@[x]
                },
        )
    }

    /// Moving the subtree of `child` below `parent` keeps every link of the
    /// tree going upwards in depth.
    proof fn lemma_shifted(&self, child: int, parent: int)
        requires
            self.wf(),
            0 <= child < self.parents@.len(),
            0 <= parent < self.parents@.len(),
            !is_ancestor_or_self(self.parents@, child, parent),
        ensures
            self.shifted(child, parent)[parent] < self.shifted(child, parent)[child],
            forall|n: int|
                0 <= n < self.parents@.len() && n != child && (#[trigger] self.parents@[n])
                    is Some ==> self.shifted(child, parent)[self.parents@[n]->Some_0 as int]
                    < self.shifted(child, parent)[n],
            forall|n: int|
                0 <= n < self.parents@.len() ==> #[trigger] self.shifted(child, parent)[n]
                    < self.bound@ + self.rank@[parent] + 1,
    {
        assert(up(self.parents@, child, 0) == Some(child));
        assert forall|n: int|
            0 <= n < self.parents@.len() && n != child && (#[trigger] self.parents@[n])
                is Some implies self.shifted(child, parent)[self.parents@[n]->Some_0 as int]
            < self.shifted(child, parent)[n] by {
            assert(self.link_ok(n));
            lemma_ancestor_unfold(self.parents@, child, n);
        }
        assert forall|n: int| 0 <= n < self.parents@.len() implies #[trigger] self.shifted(
            child,
            parent,
        )[n] < self.bound@ + self.rank@[parent] + 1 by {
            assert(self.rank@[n] < self.bound@);
        }
    }

    /// Links `child`, which has no parent, under the container `parent` as
    /// its last child, and invalidates `parent`: every slot of `parent` and
    /// of each of its ancestors is invalid afterwards, and every other cache
    /// is as it was. `child` must not be `parent` or one of its ancestors.
    pub fn add_child(&mut self, parent: usize, child: usize)
        requires
            old(self).wf(),
            parent < old(self).spec_len(),
            child < old(self).spec_len(),
            old(self).containers()[parent as int],
            old(self).parents()[child as int] is None,
            !is_ancestor_or_self(old(self).parents(), child as int, parent as int),
        ensures
            final(self).wf(),
            final(self).spec_len() == old(self).spec_len(),
            final(self).parents() == old(self).parents().update(child as int, Some(parent)),
            final(self).child_lists() == old(self).child_lists().update(
                parent as int,
                old(self).child_lists()[parent as int].push(child),
            ),
            final(self).styles() == old(self).styles(),
            final(self).containers() == old(self).containers(),
            final(self).caches().len() == old(self).caches().len(),
            forall|m: int|
                0 <= m < old(self).spec_len() ==> (#[trigger] final(self).caches()[m])
                    == if is_ancestor_or_self(old(self).parents(), m, parent as int) {
                    old(self).caches()[m].invalidated()
                } else {
                    old(self).caches()[m]
                },
    {
        self.link_child(parent, child);
        let ghost linked = *self;
        self.invalidate(parent);
        proof {
            assert forall|m: int| 0 <= m < old(self).spec_len() implies is_ancestor_or_self(
                linked.parents(),
                m,
                parent as int,
            ) == is_ancestor_or_self(old(self).parents(), m, parent as int) by {
                lemma_ancestors_unchanged(old(self).parents(), linked.parents(), parent as int, m);
            }
        }
    }

    /// Links `child`, which has no parent, under the container `parent` as
    /// its last child. The caches stay as they are.
    fn link_child(&mut self, parent: usize, child: usize)
        requires
            old(self).wf(),
            parent < old(self).spec_len(),
            child < old(self).spec_len(),
            old(self).containers()[parent as int],
            old(self).parents()[child as int] is None,
            !is_ancestor_or_self(old(self).parents(), child as int, parent as int),
        ensures
            final(self).wf(),
            final(self).spec_len() == old(self).spec_len(),
            final(self).parents() == old(self).parents().update(child as int, Some(parent)),
            final(self).child_lists() == old(self).child_lists().update(
                parent as int,
                old(self).child_lists()[parent as int].push(child),
            ),
            final(self).styles() == old(self).styles(),
            final(self).containers() == old(self).containers(),
            final(self).caches() == old(self).caches(),
    {
        let mut list: Vec<usize> = Vec::new();
        std::mem::swap(&mut list, &mut self.children[parent]);
        list.push(child);
        std::mem::swap(&mut list, &mut self.children[parent]);
        self.parents.set(child, Some(parent));
        proof {
            old(self).lemma_shifted(child as int, parent as int);
            self.rank@ = old(self).shifted(child as int, parent as int);
            self.bound@ = old(self).bound@ + old(self).rank@[parent as int] + 1;
            assert(self.child_lists() =~= old(self).child_lists().update(
                parent as int,
                old(self).child_lists()[parent as int].push(child),
            ));
            let last = old(self).children@[parent as int]@.len() as int;
            assert(self.children@[parent as int]@[last] == child);
            assert forall|n: int| 0 <= n < self.parents@.len() implies #[trigger] self.link_ok(
                n,
            ) by {
                if n != child {
                    assert(old(self).link_ok(n));
                    assert(old(self).parents@[n] == self.parents@[n]);
                    if self.parents@[n] is Some {
                        let p = self.parents@[n]->Some_0 as int;
                        let i = choose|i: int|
                            0 <= i < old(self).children@[p]@.len() && old(self).children@[p]@[i]
                                == n as usize;
                        assert(self.children@[p]@[i] == n as usize);
                    }
                }
            }
            assert forall|p: int, i: int|
                0 <= p < self.parents@.len() && 0 <= i < self.children@[p]@.len()
                    implies #[trigger] self.entry_ok(p, i) by {
                if !(p == parent && i == last) {
                    assert(old(self).entry_ok(p, i));
                }
            }
            assert forall|p: int| 0 <= p < self.parents@.len() implies (
            #[trigger] self.children@[p]@).no_duplicates() by {
                assert(old(self).children@[p]@.no_duplicates());
                if p == parent {
                    assert forall|i: int| 0 <= i < last implies old(self).children@[p]@[i]
                        != child by {
                        assert(old(self).entry_ok(p, i));
                    }
                }
            }
        }
    }

    /// Where `child` stands in the child list of `parent`.
    fn position(&self, parent: usize, child: usize) -> (r: usize)
        requires
            self.wf(),
            child < self.parents@.len(),
            self.parents@[child as int] == Some(parent),
        ensures
            r < self.children@[parent as int]@.len(),
            self.children@[parent as int]@[r as int] == child,
    {
        proof {
            assert(self.link_ok(child as int));
        }
        let count = self.children[parent].len();
        let mut i: usize = 0;
        while self.children[parent][i] != child
            invariant
                self.wf(),
                count == self.children@[parent as int]@.len(),
                parent < self.parents@.len(),
                self.children@[parent as int]@.contains(child),
                i < self.children@[parent as int]@.len(),
                forall|j: int| 0 <= j < i ==> self.children@[parent as int]@[j] != child,
            decreases self.children@[parent as int]@.len() - i,
        {
            proof {
                let at = choose|at: int|
                    0 <= at < self.children@[parent as int]@.len()
                        && self.children@[parent as int]@[at] == child;
                assert(at > i);
            }
            i = i + 1;
        }
        i
    }

    /// Removes the link of `child` to its parent, and `child` from the
    /// parent's child list, and invalidates the parent: every slot of the
    /// parent and of each of its ancestors is invalid afterwards, and every
    /// other cache is as it was. Where `child` has no parent nothing changes.
    pub fn remove_child(&mut self, child: usize)
        requires
            old(self).wf(),
            child < old(self).spec_len(),
        ensures
            final(self).wf(),
            final(self).spec_len() == old(self).spec_len(),
            final(self).parents() == old(self).parents().update(child as int, None),
            final(self).styles() == old(self).styles(),
            final(self).containers() == old(self).containers(),
            final(self).caches().len() == old(self).caches().len(),
            old(self).parents()[child as int] is None ==> final(self).child_lists() == old(
                self,
            ).child_lists() && final(self).caches() == old(self).caches(),
            old(self).parents()[child as int] is Some ==> ({
                let p = old(self).parents()[child as int]->Some_0 as int;
                let list = old(self).child_lists()[p];
                &&& final(self).child_lists() == old(self).child_lists().update(
                    p,
                    list.remove(list.index_of(child)),
                )
                &&& forall|m: int|
                    0 <= m < old(self).spec_len() ==> (#[trigger] final(self).caches()[m])
                        == if is_ancestor_or_self(old(self).parents(), m, p) {
                        old(self).caches()[m].invalidated()
                    } else {
                        old(self).caches()[m]
                    }
            }),
    {
        match self.parents[child] {
            None => {
                self.unlink_child(child);
                proof {
                    assert(self.caches() =~= old(self).caches());
                }
            },
            Some(parent) => {
                proof {
                    assert(self.link_ok(child as int));
                    self.lemma_no_cycle(child as int, parent as int);
                }
                self.unlink_child(child);
                let ghost unlinked = *self;
                self.invalidate(parent);
                proof {
                    assert forall|m: int|
                        0 <= m < old(self).spec_len() implies is_ancestor_or_self(
                        unlinked.parents(),
                        m,
                        parent as int,
                    ) == is_ancestor_or_self(old(self).parents(), m, parent as int) by {
                        lemma_ancestors_unchanged(
                            old(self).parents(),
                            unlinked.parents(),
                            parent as int,
                            m,
                        );
                    }
                }
            },
        }
    }

    /// Removes the link of `child` to its parent, and `child` from the
    /// parent's child list. Where `child` has no parent nothing changes. The
    /// caches stay as they are.
    fn unlink_child(&mut self, child: usize)
        requires
            old(self).wf(),
            child < old(self).spec_len(),
        ensures
            final(self).wf(),
            final(self).spec_len() == old(self).spec_len(),
            final(self).parents() == old(self).parents().update(child as int, None),
            final(self).styles() == old(self).styles(),
            final(self).containers() == old(self).containers(),
            final(self).caches() == old(self).caches(),
            old(self).parents()[child as int] is None ==> final(self).child_lists() == old(
                self,
            ).child_lists(),
            old(self).parents()[child as int] is Some ==> ({
                let p = old(self).parents()[child as int]->Some_0 as int;
                let list = old(self).child_lists()[p];
                final(self).child_lists() == old(self).child_lists().update(
                    p,
                    list.remove(list.index_of(child)),
                )
            }),
    {
        match self.parents[child] {
            None => {
                proof {
                    assert(self.parents@ =~= old(self).parents@.update(child as int, None));
                }
            },
            Some(parent) => {
                proof {
                    assert(self.link_ok(child as int));
                }
                let at = self.position(parent, child);
                let mut list: Vec<usize> = Vec::new();
                std::mem::swap(&mut list, &mut self.children[parent]);
                list.remove(at);
                std::mem::swap(&mut list, &mut self.children[parent]);
                self.parents.set(child, None);
                proof {
                    let before = old(self).children@[parent as int]@;
                    assert(before.no_duplicates());
                    assert(before.index_of(child) == at) by {
                        let found = before.index_of(child);
                        assert(before.contains(child));
                        assert(before[found] == child);
                    }
                    assert(self.child_lists() =~= old(self).child_lists().update(
                        parent as int,
                        before.remove(at as int),
                    ));
                    assert forall|n: int|
                        0 <= n < self.parents@.len() implies #[trigger] self.link_ok(n) by {
                        if n != child {
                            assert(old(self).link_ok(n));
                            if self.parents@[n] is Some {
                                let p = self.parents@[n]->Some_0 as int;
                                let i = choose|i: int|
                                    0 <= i < old(self).children@[p]@.len() && old(
                                        self,
                                    ).children@[p]@[i] == n as usize;
                                if p == parent {
                                    assert(i != at);
                                    if i < at {
                                        assert(self.children@[p]@[i] == n as usize);
                                    } else {
                                        assert(self.children@[p]@[i - 1] == n as usize);
                                    }
                                } else {
                                    assert(self.children@[p]@[i] == n as usize);
                                }
                            }
                        }
                    }
                    assert forall|p: int, i: int|
                        0 <= p < self.parents@.len() && 0 <= i < self.children@[p]@.len()
                            implies #[trigger] self.entry_ok(p, i) by {
                        if p == parent {
                            if i < at {
                                assert(old(self).entry_ok(p, i));
                            } else {
                                assert(old(self).entry_ok(p, i + 1));
                            }
                        } else {
                            assert(old(self).entry_ok(p, i));
                        }
                    }
                    assert forall|p: int|
                        0 <= p < self.parents@.len() implies #[trigger] self.children@[p]@.no_duplicates() by {
                        assert(old(self).children@[p]@.no_duplicates());
                    }
                    assert forall|n: int|
                        0 <= n < self.parents@.len() implies #[trigger] self.rank@[n]
                        < self.bound@ by {
                        assert(old(self).rank@[n] < old(self).bound@);
                    }
                }
            },
        }
    }

    /// Puts `new_child`, which has no parent, in the place of `old_child`
    /// in the child list of its parent: the link of `old_child` is removed
    /// and `new_child` is linked in its stead. `new_child` must not be the
    /// parent or one of its ancestors. The caches stay as they are.
    fn replace_child(&mut self, old_child: usize, new_child: usize)
        requires
            old(self).wf(),
            old_child < old(self).spec_len(),
            new_child < old(self).spec_len(),
            old(self).parents()[old_child as int] is Some,
            old(self).parents()[new_child as int] is None,
            !is_ancestor_or_self(
                old(self).parents(),
                new_child as int,
                old(self).parents()[old_child as int]->Some_0 as int,
            ),
        ensures
            final(self).wf(),
            final(self).spec_len() == old(self).spec_len(),
            final(self).parents() == old(self).parents().update(old_child as int, None).update(
                new_child as int,
                old(self).parents()[old_child as int],
            ),
            ({
                let p = old(self).parents()[old_child as int]->Some_0 as int;
                let list = old(self).child_lists()[p];
                final(self).child_lists() == old(self).child_lists().update(
                    p,
                    list.update(list.index_of(old_child), new_child),
                )
            }),
            final(self).styles() == old(self).styles(),
            final(self).containers() == old(self).containers(),
            final(self).caches() == old(self).caches(),
    {
        let parent = match self.parents[old_child] {
            Some(p) => p,
            None => 0,
        };
        proof {
            assert(self.link_ok(old_child as int));
        }
        let at = self.position(parent, old_child);
        let mut list: Vec<usize> = Vec::new();
        std::mem::swap(&mut list, &mut self.children[parent]);
        list.set(at, new_child);
        std::mem::swap(&mut list, &mut self.children[parent]);
        self.parents.set(old_child, None);
        self.parents.set(new_child, Some(parent));
        proof {
            old(self).lemma_shifted(new_child as int, parent as int);
            self.rank@ = old(self).shifted(new_child as int, parent as int);
            self.bound@ = old(self).bound@ + old(self).rank@[parent as int] + 1;
            let before = old(self).children@[parent as int]@;
            assert(before.no_duplicates());
            assert(before.index_of(old_child) == at) by {
                let found = before.index_of(old_child);
                assert(before.contains(old_child));
                assert(before[found] == old_child);
            }
            assert(self.child_lists() =~= old(self).child_lists().update(
                parent as int,
                before.update(at as int, new_child),
            ));
            assert(self.children@[parent as int]@[at as int] == new_child);
            assert forall|n: int| 0 <= n < self.parents@.len() implies #[trigger] self.link_ok(
                n,
            ) by {
                if n != new_child && n != old_child {
                    assert(old(self).link_ok(n));
                    assert(old(self).parents@[n] == self.parents@[n]);
                    if self.parents@[n] is Some {
                        let p = self.parents@[n]->Some_0 as int;
                        let i = choose|i: int|
                            0 <= i < old(self).children@[p]@.len() && old(self).children@[p]@[i]
                                == n as usize;
                        assert(self.children@[p]@[i] == n as usize);
                    }
                }
            }
            assert forall|p: int, i: int|
                0 <= p < self.parents@.len() && 0 <= i < self.children@[p]@.len()
                    implies #[trigger] self.entry_ok(p, i) by {
                assert(old(self).entry_ok(p, i));
            }
            assert forall|p: int| 0 <= p < self.parents@.len() implies (
            #[trigger] self.children@[p]@).no_duplicates() by {
                assert(old(self).children@[p]@.no_duplicates());
                if p == parent {
                    assert forall|i: int| 0 <= i < before.len() implies before[i]
                        != new_child by {
                        assert(old(self).entry_ok(p, i));
                    }
                }
            }
        }
    }

    /// The cache of the child of `node` at position `i`.
    pub open spec fn child_cache(&self, node: int, i: int) -> LayoutCache {
        self.caches()[self.child_lists()[node][i] as int]
    }

    /// What each child of `node` holds in its slot for the measurement
    /// `request`, with the child's style.
    pub open spec fn child_answers(&self, node: int, request: LayoutInput) -> Seq<
        LayoutCharacteristics,
    > {
        Seq::new(
            self.child_lists()[node].len(),
            |i: int|
                LayoutCharacteristics {
                    layout_style: self.styles()[self.child_lists()[node][i] as int].layout_style,
                    min_size: self.child_cache(node, i).spec_slot(
                        request.spec_shape(),
                    ).cached.margin_box.spec_size(),
                },
        )
    }

    /// Whether `answer` is what the container `node` answers to `input`,
    /// given what its children hold. Every child holds a valid answer to the
    /// measurement request of the container. For a measurement, `answer` is
    /// the measured content size with the container's spacing around it, at
    /// the origin. For an arrangement, `answer` is the allocated rectangle,
    /// and every child holds a valid answer to the arrangement within the
    /// rectangle that the arrange pass allocates to it.
    pub open spec fn container_answer(
        &self,
        node: int,
        input: LayoutInput,
        answer: ComputedLayout,
    ) -> bool {
        let style = self.styles()[node];
        let scale_factor = input.spec_scale_factor();
        let request = child_request(style, input.spec_offered(), scale_factor);
        let answers = self.child_answers(node, request);
        &&& forall|i: int|
            0 <= i < self.child_lists()[node].len() ==> (#[trigger] self.child_cache(
                node,
                i,
            )).spec_lookup(request) is Some
        &&& match input {
            LayoutInput::ComputeSize { .. } => {
                let size = measured(style, scale_factor, answers).content_size.spec_plus(
                    style.layout_style.spec_spacing(scale_factor).spec_sum_axes(),
                );
                answer.margin_box == (Rect { x: 0, y: 0, w: size.horizontal, h: size.vertical })
            },
            LayoutInput::FinalLayout { allocated, .. } => {
                &&& answer.margin_box == allocated
                &&& forall|i: int|
                    0 <= i < self.child_lists()[node].len() ==> (#[trigger] self.child_cache(
                        node,
                        i,
                    )).spec_lookup(
                        LayoutInput::FinalLayout {
                            allocated: child_rect(style, allocated, scale_factor, answers, i),
                            scale_factor,
                        },
                    ) is Some
            },
        }
    }

    /// A cache outside the subtree of a child of `node` is outside the
    /// subtree of `node` or is that of `node`.
    proof fn lemma_outside_child(&self, node: int, i: int, m: int)
        requires
            self.wf(),
            0 <= node < self.parents@.len(),
            0 <= i < self.children@[node]@.len(),
            0 <= m < self.parents@.len(),
            !is_ancestor_or_self(self.parents@, node, m) || m == node,
        ensures
            !is_ancestor_or_self(self.parents@, self.children@[node]@[i] as int, m),
    {
        let c = self.children@[node]@[i] as int;
        assert(self.entry_ok(node, i));
        assert(self.link_ok(c));
        if is_ancestor_or_self(self.parents@, c, m) {
            if m == node {
                self.lemma_no_cycle(c, node);
            } else {
                lemma_ancestor_extend(self.parents@, c, m);
            }
        }
    }

    /// The subtrees of two children of `node` are apart.
    proof fn lemma_siblings_apart(&self, node: int, i: int, j: int)
        requires
            self.wf(),
            0 <= node < self.parents@.len(),
            0 <= i < self.children@[node]@.len(),
            0 <= j < self.children@[node]@.len(),
            i != j,
        ensures
            self.children@[node]@[i] != self.children@[node]@[j],
            !is_ancestor_or_self(
                self.parents@,
                self.children@[node]@[i] as int,
                self.children@[node]@[j] as int,
            ),
    {
        assert(self.entry_ok(node, i));
        assert(self.entry_ok(node, j));
        assert(self.children@[node]@.no_duplicates());
        self.lemma_no_cycle(self.children@[node]@[i] as int, self.children@[node]@[j] as int);
    }

    /// Answers `input` for `node` through its cache. A valid slot that
    /// holds `input` answers it, and nothing changes. Otherwise the answer
    /// is computed, for a node without children from what `measure` returns
    /// for it and for a container from the answers of its children, which
    /// are asked in turn; it is stored in the slot for the kind of `input`.
    /// No cache outside the subtree of `node` changes.
    fn layout_node<F: Fn(usize, Size, u32) -> Size>(
        &mut self,
        node: usize,
        input: LayoutInput,
        measure: &F,
    ) -> (r: ComputedLayout)
        requires
            old(self).wf(),
            node < old(self).spec_len(),
            forall|id: usize, content: Size, scale_factor: u32|
                call_requires(*measure, (id, content, scale_factor)),
        ensures
            final(self).wf(),
            final(self).same_shape(*old(self)),
            final(self).children@ == old(self).children@,
            final(self).rank@ == old(self).rank@,
            final(self).bound@ == old(self).bound@,
            final(self).shape() == old(self).shape(),
            final(self).computed(*old(self), node as int, input, r, measure),
            old(self).sound(measure) ==> final(self).sound(measure),
        decreases old(self).bound@ - old(self).rank@[node as int], 1nat,
    {
        proof {
            assert(self.rank@[node as int] < self.bound@);
            self.lemma_shape();
        }
        match self.caches[node].lookup(input) {
            Some(hit) => {
                return hit;
            },
            None => {},
        }
        let style = self.styles[node];
        let scale_factor = input.scale_factor();
        let computed = if !self.containers[node] {
            let content = budget(&style.layout_style, input);
            let content_size = measure(node, content, scale_factor);
            let placed_box = place(&style.layout_style, input, content_size);
            proof {
                assert(fresh(self.shape(), measure, node as int, input, placed_box));
            }
            placed_box
        } else {
            let request = request_for_children(&style, input.offered(), scale_factor);
            let answers = self.measure_pass(node, request, measure);
            match input {
                LayoutInput::ComputeSize { available, .. } => {
                    let found = measure_children(&style, scale_factor, answers.as_slice());
                    let spacing = style.layout_style.spacing(scale_factor);
                    let size = found.content_size.plus(spacing.sum_axes());
                    let measured_box = ComputedLayout {
                        margin_box: Rect::from_topleft_size(Point::new(0, 0), size),
                    };
                    proof {
                        if old(self).sound(measure) {
                            self.lemma_fresh_from_children(measure, node as int, input, measured_box);
                        }
                    }
                    measured_box
                },
                LayoutInput::FinalLayout { allocated, .. } => {
                    let rects = arrange(&style, allocated, scale_factor, answers.as_slice());
                    let ghost measured_tree = *self;
                    self.arrange_pass(node, &rects, measure);
                    proof {
                        assert(self.child_answers(node as int, request)
                            =~= measured_tree.child_answers(node as int, request));
                    }
                    ComputedLayout { margin_box: allocated }
                },
            }
        };
        let ghost asked = *self;
        let mut cache = self.caches[node];
        cache.store(input, computed);
        self.caches.set(node, cache);
        proof {
            self.lemma_kept(*old(self));
            assert(up(self.parents@, node as int, 0) == Some(node as int));
            if self.containers@[node as int] {
                let request = child_request(style, input.spec_offered(), scale_factor);
                assert forall|i: int| 0 <= i < self.child_lists()[node as int].len() implies (
                #[trigger] self.child_cache(node as int, i)) == asked.child_cache(
                    node as int,
                    i,
                ) by {
                    asked.lemma_child(node as int, i);
                }
                assert(self.child_answers(node as int, request) =~= asked.child_answers(
                    node as int,
                    request,
                ));
                assert(self.container_answer(node as int, input, computed));
            }
            if old(self).sound(measure) {
                assert(fresh(self.shape(), measure, node as int, input, computed));
                assert forall|m: int, kind: Shape|
                    0 <= m < self.spec_len() && (#[trigger] self.caches()[m].spec_slot(
                        kind,
                    )).is_valid implies fresh(
                    self.shape(),
                    measure,
                    m,
                    self.caches()[m].spec_slot(kind).with_input,
                    self.caches()[m].spec_slot(kind).cached,
                ) by {
                    if m == node && kind == input.spec_shape() {
                    } else {
                        assert(self.caches()[m].spec_slot(kind) == asked.caches()[m].spec_slot(
                            kind,
                        ));
                    }
                }
            }
        }
        computed
    }

    /// The size that a container measures from the cached answers of its
    /// children to its request is computed as [`fresh`] says, where the tree
    /// is sound and every child holds a valid answer.
    proof fn lemma_fresh_from_children<F: Fn(usize, Size, u32) -> Size>(
        &self,
        measure: &F,
        node: int,
        input: LayoutInput,
        answer: ComputedLayout,
    )
        requires
            self.wf(),
            self.sound(measure),
            0 <= node < self.spec_len(),
            self.containers()[node],
            input is ComputeSize,
            forall|i: int|
                0 <= i < self.child_lists()[node].len() ==> (#[trigger] self.child_cache(
                    node,
                    i,
                )).spec_lookup(
                    child_request(
                        self.styles()[node],
                        input.spec_offered(),
                        input.spec_scale_factor(),
                    ),
                ) is Some,
            ({
                let style = self.styles()[node];
                let scale_factor = input.spec_scale_factor();
                let request = child_request(style, input.spec_offered(), scale_factor);
                let size = measured(
                    style,
                    scale_factor,
                    self.child_answers(node, request),
                ).content_size.spec_plus(style.layout_style.spec_spacing(scale_factor).spec_sum_axes());
                answer.margin_box == (Rect { x: 0, y: 0, w: size.horizontal, h: size.vertical })
            }),
        ensures
            fresh(self.shape(), measure, node, input, answer),
    {
        self.lemma_shape();
        let shape = self.shape();
        let request = child_request(
            self.styles()[node],
            input.spec_offered(),
            input.spec_scale_factor(),
        );
        let answers = Seq::new(
            self.child_lists()[node].len(),
            |i: int| self.child_cache(node, i).spec_slot(request.spec_shape()).cached,
        );
        assert forall|i: int| 0 <= i < shape.children[node].len() implies fresh(
            shape,
            measure,
            shape.children[node][i] as int,
            request,
            #[trigger] answers[i],
        ) by {
            self.lemma_child(node, i);
            let c = self.child_lists()[node][i] as int;
            assert(self.child_cache(node, i).spec_lookup(request) is Some);
            assert(self.caches()[c].spec_slot(request.spec_shape()).is_valid);
        }
        assert(fresh_children(shape, measure, node, input, answers));
        assert(characteristics(shape, node, answers) =~= self.child_answers(node, request));
        assert(shape.containers[node]);
        assert(shape.styles[node] == self.styles()[node]);
        match input {
            LayoutInput::ComputeSize { scale_factor, .. } => {
                assert(answer.margin_box == measured_box(shape, node, scale_factor, answers));
            },
            LayoutInput::FinalLayout { .. } => {},
        }
    }

    /// Asks every child of `node` for its answer to the measurement
    /// `request`, and collects the answers with the children's styles.
    fn measure_pass<F: Fn(usize, Size, u32) -> Size>(
        &mut self,
        node: usize,
        request: LayoutInput,
        measure: &F,
    ) -> (answers: Vec<LayoutCharacteristics>)
        requires
            old(self).wf(),
            node < old(self).spec_len(),
            forall|id: usize, content: Size, scale_factor: u32|
                call_requires(*measure, (id, content, scale_factor)),
        ensures
            final(self).wf(),
            final(self).same_shape(*old(self)),
            final(self).children@ == old(self).children@,
            final(self).rank@ == old(self).rank@,
            final(self).bound@ == old(self).bound@,
            final(self).shape() == old(self).shape(),
            old(self).sound(measure) ==> final(self).sound(measure),
            final(self).caches@.len() == old(self).caches@.len(),
            final(self).caches@[node as int] == old(self).caches@[node as int],
            forall|m: int|
                0 <= m < old(self).spec_len() && !is_ancestor_or_self(
                    old(self).parents(),
                    node as int,
                    m,
                ) ==> #[trigger] final(self).caches@[m] == old(self).caches@[m],
            answers@ == final(self).child_answers(node as int, request),
            forall|i: int|
                0 <= i < final(self).child_lists()[node as int].len() ==> (
                #[trigger] final(self).child_cache(node as int, i)).spec_lookup(request) is Some,
        decreases old(self).bound@ - old(self).rank@[node as int], 0nat,
    {
        let count = self.children[node].len();
        let mut answers: Vec<LayoutCharacteristics> = Vec::new();
        let mut i: usize = 0;
        while i < count
            invariant
                old(self).wf(),
                self.wf(),
                node < self.parents@.len(),
                forall|id: usize, content: Size, scale_factor: u32|
                    call_requires(*measure, (id, content, scale_factor)),
                self.parents@ == old(self).parents@,
                self.children@ == old(self).children@,
                self.containers@ == old(self).containers@,
                self.styles@ == old(self).styles@,
                self.rank@ == old(self).rank@,
                self.bound@ == old(self).bound@,
                self.shape() == old(self).shape(),
                old(self).sound(measure) ==> self.sound(measure),
                self.caches@.len() == old(self).caches@.len(),
                count == self.children@[node as int]@.len(),
                i <= count,
                self.caches@[node as int] == old(self).caches@[node as int],
                forall|m: int|
                    0 <= m < self.parents@.len() && !is_ancestor_or_self(
                        self.parents@,
                        node as int,
                        m,
                    ) ==> #[trigger] self.caches@[m] == old(self).caches@[m],
                answers@.len() == i,
                forall|j: int|
                    0 <= j < i ==> (#[trigger] self.caches@[self.children@[node as int]@[j] as int]).spec_lookup(
                        request,
                    ) is Some,
                forall|j: int|
                    0 <= j < i ==> #[trigger] answers@[j] == (LayoutCharacteristics {
                        layout_style: self.styles@[self.children@[node as int]@[j] as int].layout_style,
                        min_size: self.caches@[self.children@[node as int]@[j] as int].spec_slot(
                            request.spec_shape(),
                        ).cached.margin_box.spec_size(),
                    }),
            decreases count - i,
        {
            let child = self.children[node][i];
            proof {
                assert(self.entry_ok(node as int, i as int));
                assert(self.link_ok(child as int));
                assert(self.rank@[child as int] < self.bound@);
            }
            let ghost before = *self;
            let answer = self.layout_node(child, request, measure);
            proof {
                assert(up(self.parents@, child as int, 0) == Some(child as int));
                before.lemma_outside_child(node as int, i as int, node as int);
                assert forall|m: int|
                    0 <= m < self.parents@.len() && !is_ancestor_or_self(
                        self.parents@,
                        node as int,
                        m,
                    ) implies #[trigger] self.caches@[m] == old(self).caches@[m] by {
                    before.lemma_outside_child(node as int, i as int, m);
                }
                assert forall|j: int| 0 <= j < i implies (
                #[trigger] self.caches@[self.children@[node as int]@[j] as int])
                    == before.caches@[before.children@[node as int]@[j] as int] by {
                    before.lemma_siblings_apart(node as int, i as int, j);
                    assert(before.entry_ok(node as int, j));
                }
            }
            answers.push(
                LayoutCharacteristics {
                    layout_style: self.styles[child].layout_style,
                    min_size: answer.margin_box.size(),
                },
            );
            i = i + 1;
        }
        proof {
            assert(answers@ =~= self.child_answers(node as int, request));
            assert(self.child_lists() =~= old(self).child_lists());
        }
        answers
    }

    /// Asks every child of `node` for its answer to the arrangement that
    /// `rects` holds for it.
    fn arrange_pass<F: Fn(usize, Size, u32) -> Size>(
        &mut self,
        node: usize,
        rects: &Vec<LayoutInput>,
        measure: &F,
    )
        requires
            old(self).wf(),
            node < old(self).spec_len(),
            rects@.len() == old(self).child_lists()[node as int].len(),
            forall|i: int| 0 <= i < rects@.len() ==> (#[trigger] rects@[i]) is FinalLayout,
            forall|id: usize, content: Size, scale_factor: u32|
                call_requires(*measure, (id, content, scale_factor)),
        ensures
            final(self).wf(),
            final(self).same_shape(*old(self)),
            final(self).children@ == old(self).children@,
            final(self).rank@ == old(self).rank@,
            final(self).bound@ == old(self).bound@,
            final(self).shape() == old(self).shape(),
            old(self).sound(measure) ==> final(self).sound(measure),
            final(self).caches@.len() == old(self).caches@.len(),
            final(self).caches@[node as int] == old(self).caches@[node as int],
            forall|m: int|
                0 <= m < old(self).spec_len() && !is_ancestor_or_self(
                    old(self).parents(),
                    node as int,
                    m,
                ) ==> #[trigger] final(self).caches@[m] == old(self).caches@[m],
            forall|i: int|
                0 <= i < rects@.len() ==> {
                    &&& (#[trigger] final(self).child_cache(node as int, i)).spec_lookup(rects@[i])
                        is Some
                    &&& final(self).child_cache(node as int, i).unconstrained == old(
                        self,
                    ).child_cache(node as int, i).unconstrained
                    &&& final(self).child_cache(node as int, i).bounded == old(self).child_cache(
                        node as int,
                        i,
                    ).bounded
                },
        decreases old(self).bound@ - old(self).rank@[node as int], 0nat,
    {
        let count = self.children[node].len();
        let mut i: usize = 0;
        while i < count
            invariant
                old(self).wf(),
                self.wf(),
                node < self.parents@.len(),
                forall|id: usize, content: Size, scale_factor: u32|
                    call_requires(*measure, (id, content, scale_factor)),
                forall|k: int| 0 <= k < rects@.len() ==> (#[trigger] rects@[k]) is FinalLayout,
                self.parents@ == old(self).parents@,
                self.children@ == old(self).children@,
                self.containers@ == old(self).containers@,
                self.styles@ == old(self).styles@,
                self.rank@ == old(self).rank@,
                self.bound@ == old(self).bound@,
                self.shape() == old(self).shape(),
                old(self).sound(measure) ==> self.sound(measure),
                self.caches@.len() == old(self).caches@.len(),
                count == self.children@[node as int]@.len(),
                count == rects@.len(),
                i <= count,
                self.caches@[node as int] == old(self).caches@[node as int],
                forall|m: int|
                    0 <= m < self.parents@.len() && !is_ancestor_or_self(
                        self.parents@,
                        node as int,
                        m,
                    ) ==> #[trigger] self.caches@[m] == old(self).caches@[m],
                forall|j: int|
                    0 <= j < i ==> (#[trigger] self.caches@[self.children@[node as int]@[j] as int]).spec_lookup(
                        rects@[j],
                    ) is Some,
                forall|j: int|
                    0 <= j < count ==> {
                        &&& (#[trigger] self.caches@[self.children@[node as int]@[j] as int]).unconstrained
                            == old(self).caches@[self.children@[node as int]@[j] as int].unconstrained
                        &&& self.caches@[self.children@[node as int]@[j] as int].bounded == old(
                            self,
                        ).caches@[self.children@[node as int]@[j] as int].bounded
                    },
                forall|j: int|
                    i <= j < count ==> (#[trigger] self.caches@[self.children@[node as int]@[j] as int])
                        == old(self).caches@[self.children@[node as int]@[j] as int],
            decreases count - i,
        {
            let child = self.children[node][i];
            proof {
                assert(self.entry_ok(node as int, i as int));
                assert(self.link_ok(child as int));
                assert(self.rank@[child as int] < self.bound@);
                assert(rects@[i as int] is FinalLayout);
            }
            let ghost before = *self;
            let _ = self.layout_node(child, rects[i], measure);
            proof {
                assert(up(self.parents@, child as int, 0) == Some(child as int));
                before.lemma_outside_child(node as int, i as int, node as int);
                assert forall|m: int|
                    0 <= m < self.parents@.len() && !is_ancestor_or_self(
                        self.parents@,
                        node as int,
                        m,
                    ) implies #[trigger] self.caches@[m] == old(self).caches@[m] by {
                    before.lemma_outside_child(node as int, i as int, m);
                }
                assert forall|j: int| 0 <= j < count && j != i implies (
                #[trigger] self.caches@[self.children@[node as int]@[j] as int])
                    == before.caches@[before.children@[node as int]@[j] as int] by {
                    before.lemma_siblings_apart(node as int, i as int, j);
                    assert(before.entry_ok(node as int, j));
                }
            }
            i = i + 1;
        }
        proof {
            assert(self.child_lists() =~= old(self).child_lists());
        }
    }

    /// What a call for the answer of `node` to `input` leaves behind, where
    /// `before` is the tree before the call and `answer` what it returned.
    ///
    /// Where the cache of `node` held a valid answer to `input`, that is
    /// `answer`, and no cache has changed. Otherwise `answer` was stored in
    /// the slot of `node` for the kind of `input`, no cache outside the
    /// subtree of `node` has changed, and `answer` is: for a node without
    /// children, the margin box placed around a size that `measure` returned
    /// for the node, the content budget and the scale factor; for a
    /// container, what [`Self::container_answer`] says of the answers that
    /// its children hold. That those answers are computed in the same way
    /// themselves, all the way down, is what [`Self::sound`] says of the
    /// tree: a call keeps a sound tree sound.
    pub open spec fn computed<F: Fn(usize, Size, u32) -> Size>(
        &self,
        before: LayoutTree,
        node: int,
        input: LayoutInput,
        answer: ComputedLayout,
        measure: &F,
    ) -> bool {
        let style = before.styles()[node];
        &&& self.caches().len() == before.caches().len()
        &&& self.caches()[node].spec_lookup(input) == Some(answer)
        &&& before.caches()[node].spec_lookup(input) is Some ==> self.caches() == before.caches()
        &&& before.caches()[node].spec_lookup(input) is None ==> {
            &&& self.caches()[node] == before.caches()[node].stored(input, answer)
            &&& forall|m: int|
                0 <= m < before.spec_len() && !is_ancestor_or_self(before.parents(), node, m)
                    ==> #[trigger] self.caches()[m] == before.caches()[m]
            &&& if before.containers()[node] {
                self.container_answer(node, input, answer)
            } else {
                exists|content_size: Size|
                    {
                        &&& call_ensures(
                            *measure,
                            (
                                node as usize,
                                content_budget(style.layout_style, input),
                                input.spec_scale_factor(),
                            ),
                            content_size,
                        )
                        &&& answer == placed(style.layout_style, input, content_size)
                    }
            }
        }
    }

    /// Answers `input` for `node`, see [`Self::computed`]. Where the tree is
    /// sound it stays so, and the answer is one that is computed without any
    /// cache, all the way down, see [`fresh`]. A container must not be
    /// arranged within a rectangle that is unbounded along its main axis.
    pub fn compute_layout<F: Fn(usize, Size, u32) -> Size>(
        &mut self,
        node: usize,
        input: LayoutInput,
        measure: &F,
    ) -> (r: ComputedLayout)
        requires
            old(self).wf(),
            node < old(self).spec_len(),
            input is FinalLayout && old(self).containers()[node as int]
                ==> input.spec_offered().spec_axis(old(self).styles()[node as int].main_axis)
                != UNBOUNDED,
            forall|id: usize, content: Size, scale_factor: u32|
                call_requires(*measure, (id, content, scale_factor)),
        ensures
            final(self).wf(),
            final(self).same_shape(*old(self)),
            final(self).shape() == old(self).shape(),
            final(self).computed(*old(self), node as int, input, r, measure),
            old(self).sound(measure) ==> final(self).sound(measure) && fresh(
                final(self).shape(),
                measure,
                node as int,
                input,
                r,
            ),
    {
        let answer = self.layout_node(node, input, measure);
        proof {
            self.lemma_sound(measure, node as int, input);
        }
        answer
    }

    /// The boxes of the last arrangement of `node`, whether or not its slot
    /// is still valid. Before the first arrangement these are the boxes of
    /// the empty rectangle at the origin.
    pub fn get_final_layout(&self, node: usize) -> (r: Layout)
        requires
            self.wf(),
            node < self.spec_len(),
        ensures
            r == self.caches()[node as int].spec_final_layout(
                self.styles()[node as int].layout_style,
            ),
    {
        let style = self.styles[node].layout_style;
        self.caches[node].get_final_layout(&style)
    }
}

/// The style under which a node without children is kept: its own, with the
/// arrangement attributes at their defaults.
pub open spec fn leaf_style(style: LayoutStyle) -> ContainerLayoutStyle {
    ContainerLayoutStyle {
        layout_style: style,
        main_axis: Axis::Vertical,
        main_direction: Direction::Positive,
        main_justify: Justify::Min,
        cross_justify: Justify::Min,
    }
}

} // verus!
