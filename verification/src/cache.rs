//! The per-node layout cache: one slot for each kind of request, answered
//! without recomputation when the same request comes again.

use crate::layout::leaf::{budget, content_budget, place, placed};
use crate::layout::{ComputedLayout, Layout, LayoutInput, Shape};
use crate::math::{Rect, Size};
use crate::style::LayoutStyle;
use vstd::prelude::*;

verus! {

/// One cache slot: the last request of its kind and the answer to it.
#[derive(Copy, Clone, PartialEq, Eq, Debug, Structural)]
pub struct CachedLayout {
    /// Whether the answer may still be handed out.
    pub is_valid: bool,
    pub with_input: LayoutInput,
    pub cached: ComputedLayout,
}

impl CachedLayout {
    /// The answer of the slot to `input`, if it holds one.
    pub open spec fn spec_answer(&self, input: LayoutInput) -> Option<ComputedLayout> {
        if self.is_valid && self.with_input == input {
            Some(self.cached)
        } else {
            None
        }
    }

    /// The answer of the slot to `input`, if it holds one.
    #[verifier::when_used_as_spec(spec_answer)]
    pub fn answer(&self, input: LayoutInput) -> (r: Option<ComputedLayout>)
        ensures
            r == self.spec_answer(input),
    {
        if self.is_valid && self.with_input == input {
            Some(self.cached)
        } else {
            None
        }
    }

    /// The same slot, no longer valid. It keeps the last answer.
    pub open spec fn invalidated(self) -> CachedLayout {
        CachedLayout { is_valid: false, with_input: self.with_input, cached: self.cached }
    }
}

/// The three slots of a node.
#[derive(Copy, Clone, PartialEq, Eq, Debug, Structural)]
pub struct LayoutCache {
    /// Measured with an unbounded extent.
    pub unconstrained: CachedLayout,
    /// Measured within a bounded size.
    pub bounded: CachedLayout,
    /// Arranged.
    pub arranged: CachedLayout,
}

impl LayoutCache {
    /// A cache with no valid slot. Each slot holds the empty rectangle at the
    /// origin.
    pub open spec fn spec_new() -> LayoutCache {
        let zero = ComputedLayout { margin_box: Rect { x: 0, y: 0, w: 0, h: 0 } };
        let measure = LayoutInput::ComputeSize {
            available: Size { horizontal: 0, vertical: 0 },
            scale_factor: 0,
        };
        let arrange = LayoutInput::FinalLayout {
            allocated: Rect { x: 0, y: 0, w: 0, h: 0 },
            scale_factor: 0,
        };
        LayoutCache {
            unconstrained: CachedLayout { is_valid: false, with_input: measure, cached: zero },
            bounded: CachedLayout { is_valid: false, with_input: measure, cached: zero },
            arranged: CachedLayout { is_valid: false, with_input: arrange, cached: zero },
        }
    }

    /// A cache with no valid slot.
    pub fn new() -> (r: LayoutCache)
        ensures
            r == LayoutCache::spec_new(),
    {
        let zero = ComputedLayout { margin_box: Rect::from_xywh(0, 0, 0, 0) };
        let measure = LayoutInput::ComputeSize { available: Size::new(0, 0), scale_factor: 0 };
        let arrange = LayoutInput::FinalLayout {
            allocated: Rect::from_xywh(0, 0, 0, 0),
            scale_factor: 0,
        };
        LayoutCache {
            unconstrained: CachedLayout { is_valid: false, with_input: measure, cached: zero },
            bounded: CachedLayout { is_valid: false, with_input: measure, cached: zero },
            arranged: CachedLayout { is_valid: false, with_input: arrange, cached: zero },
        }
    }

    /// The slot for requests of kind `shape`.
    pub open spec fn spec_slot(&self, shape: Shape) -> CachedLayout {
        match shape {
            Shape::Unconstrained => self.unconstrained,
            Shape::Bounded => self.bounded,
            Shape::Final => self.arranged,
        }
    }

    /// The slot for requests of kind `shape`.
    #[verifier::when_used_as_spec(spec_slot)]
    pub fn slot(&self, shape: Shape) -> (r: CachedLayout)
        ensures
            r == self.spec_slot(shape),
    {
        match shape {
            Shape::Unconstrained => self.unconstrained,
            Shape::Bounded => self.bounded,
            Shape::Final => self.arranged,
        }
    }

    /// The cached answer to `input`: that of the slot for its kind.
    pub open spec fn spec_lookup(&self, input: LayoutInput) -> Option<ComputedLayout> {
        self.spec_slot(input.spec_shape()).spec_answer(input)
    }

    /// The cached answer to `input`: that of the slot for its kind.
    #[verifier::when_used_as_spec(spec_lookup)]
    pub fn lookup(&self, input: LayoutInput) -> (r: Option<ComputedLayout>)
        ensures
            r == self.spec_lookup(input),
    {
        self.slot(input.shape()).answer(input)
    }

    /// The cache after `computed` was stored as the answer to `input`: the
    /// slot for the kind of `input` holds it and is valid, the other two are
    /// as they were.
    pub open spec fn stored(self, input: LayoutInput, computed: ComputedLayout) -> LayoutCache {
        let entry = CachedLayout { is_valid: true, with_input: input, cached: computed };
        match input.spec_shape() {
            Shape::Unconstrained => LayoutCache { unconstrained: entry, ..self },
            Shape::Bounded => LayoutCache { bounded: entry, ..self },
            Shape::Final => LayoutCache { arranged: entry, ..self },
        }
    }

    /// Stores `computed` as the answer to `input`, see [`Self::stored`].
    pub fn store(&mut self, input: LayoutInput, computed: ComputedLayout)
        ensures
            *final(self) == old(self).stored(input, computed),
    {
        let entry = CachedLayout { is_valid: true, with_input: input, cached: computed };
        match input.shape() {
            Shape::Unconstrained => {
                self.unconstrained = entry;
            },
            Shape::Bounded => {
                self.bounded = entry;
            },
            Shape::Final => {
                self.arranged = entry;
            },
        }
    }

    /// The cache with all three slots invalid.
    pub open spec fn invalidated(self) -> LayoutCache {
        LayoutCache {
            unconstrained: self.unconstrained.invalidated(),
            bounded: self.bounded.invalidated(),
            arranged: self.arranged.invalidated(),
        }
    }

    /// Makes all three slots invalid.
    pub fn invalidate(&mut self)
        ensures
            *final(self) == old(self).invalidated(),
    {
        self.unconstrained.is_valid = false;
        self.bounded.is_valid = false;
        self.arranged.is_valid = false;
    }

    /// Whether any slot is valid.
    pub open spec fn spec_any_valid(&self) -> bool {
        self.unconstrained.is_valid || self.bounded.is_valid || self.arranged.is_valid
    }

    /// Whether any slot is valid.
    #[verifier::when_used_as_spec(spec_any_valid)]
    pub fn any_valid(&self) -> (r: bool)
        ensures
            r == self.spec_any_valid(),
    {
        self.unconstrained.is_valid || self.bounded.is_valid || self.arranged.is_valid
    }

    /// The boxes of the last arrangement for a node with style `style`,
    /// whether or not the slot is still valid. Before the first arrangement
    /// these are the boxes of the empty rectangle at the origin.
    pub open spec fn spec_final_layout(&self, style: LayoutStyle) -> Layout {
        Layout::spec_from_margin_box(
            style,
            self.arranged.with_input.spec_scale_factor(),
            self.arranged.cached.margin_box,
        )
    }

    /// The boxes of the last arrangement, see [`Self::spec_final_layout`].
    pub fn get_final_layout(&self, style: &LayoutStyle) -> (r: Layout)
        ensures
            r == self.spec_final_layout(*style),
    {
        Layout::from_margin_box(
            style,
            self.arranged.with_input.scale_factor(),
            self.arranged.cached.margin_box,
        )
    }
}

/// Answers `input` for a node without children through its cache. A valid
/// slot that holds `input` answers it, the cache stays as it is and
/// `measure` is not called. Otherwise `measure` is called once with the
/// content budget and the scale factor, the margin box is placed around
/// what it returned, and the answer is stored in the slot for the kind of
/// `input`.
pub fn compute_layout_leaf<F: FnOnce(Size, u32) -> Size>(
    cache: &mut LayoutCache,
    style: &LayoutStyle,
    input: LayoutInput,
    measure: F,
) -> (r: ComputedLayout)
    requires
        old(cache).spec_lookup(input) is None ==> call_requires(
            measure,
            (content_budget(*style, input), input.spec_scale_factor()),
        ),
    ensures
        old(cache).spec_lookup(input) is Some ==> old(cache).spec_lookup(input) == Some(r)
            && *final(cache) == *old(cache),
        old(cache).spec_lookup(input) is None ==> *final(cache) == old(cache).stored(input, r)
            && exists|measured: Size|
            {
                &&& call_ensures(
                    measure,
                    (content_budget(*style, input), input.spec_scale_factor()),
                    measured,
                )
                &&& r == placed(*style, input, measured)
            },
        final(cache).spec_lookup(input) == Some(r),
{
    match cache.lookup(input) {
        Some(hit) => hit,
        None => {
            let content = budget(style, input);
            let measured = measure(content, input.scale_factor());
            let computed = place(style, input, measured);
            cache.store(input, computed);
            computed
        },
    }
}

/// Between two invalidations a request is computed once: after any answer to
/// `input` was stored, the cache answers `input` with it, and storing an
/// answer to a request of another kind does not change that.
pub proof fn lemma_stored_is_answered(
    cache: LayoutCache,
    input: LayoutInput,
    computed: ComputedLayout,
    other: LayoutInput,
    other_computed: ComputedLayout,
)
    ensures
        cache.stored(input, computed).spec_lookup(input) == Some(computed),
        other.spec_shape() != input.spec_shape() ==> cache.stored(input, computed).stored(
            other,
            other_computed,
        ).spec_lookup(input) == Some(computed),
        cache.invalidated().spec_lookup(input) is None,
{
}

} // verus!
