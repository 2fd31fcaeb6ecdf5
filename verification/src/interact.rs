//! Interactions: what a subtree accepts and where, and the turning of
//! pointer events into interactions.

use crate::math::{clamp, hull, lemma_hull_of_two, max_int, min_int, Point, Rect};
use core::ops::BitOr;
use vstd::prelude::*;
use vstd::std_specs::ops::BitOrSpecImpl;

verus! {

/// The state of the pointer as a widget sees it.
#[derive(Copy, Clone, Debug)]
pub struct InteractState {
    pub mouse_position: (i64, i64),
    pub focused_item: (),
}

/// Something that the user did to the window.
#[derive(Copy, Clone, Debug, PartialEq, Eq, Structural)]
pub enum Interaction {
    /// A click at a position.
    Click(Point),
}

/// What a subtree accepts, and where.
#[derive(Copy, Clone, Debug, PartialEq, Eq, Structural)]
pub struct InteractSet {
    /// Whether the subtree accepts clicks.
    pub click: bool,
    /// A rectangle that holds every position at which it accepts one.
    pub click_area: Rect,
}

impl InteractSet {
    /// The set that accepts nothing: its area is the empty rectangle at the
    /// origin.
    pub open spec fn spec_empty() -> InteractSet {
        InteractSet { click: false, click_area: Rect { x: 0, y: 0, w: 0, h: 0 } }
    }

    /// The set that accepts nothing.
    #[verifier::when_used_as_spec(spec_empty)]
    pub fn empty() -> (r: InteractSet)
        ensures
            r == InteractSet::spec_empty(),
    {
        InteractSet { click: false, click_area: Rect::zeroed() }
    }

    /// The set that accepts clicks within `area`.
    pub fn clickable(area: Rect) -> (r: InteractSet)
        ensures
            r == (InteractSet { click: true, click_area: area }),
    {
        InteractSet { click: true, click_area: area }
    }

    /// Whether the set accepts `interaction`: it accepts clicks, and the
    /// position lies in the click area.
    pub open spec fn spec_accepts(&self, interaction: &Interaction) -> bool {
        match interaction {
            Interaction::Click(point) => self.click && self.click_area.spec_contains(*point),
        }
    }

    /// Whether the set accepts `interaction`.
    #[verifier::when_used_as_spec(spec_accepts)]
    pub fn accepts(&self, interaction: &Interaction) -> (r: bool)
        ensures
            r == self.spec_accepts(interaction),
    {
        match interaction {
            Interaction::Click(point) => self.click && self.click_area.contains(*point),
        }
    }

    /// The click area of the union of two sets: the hull of the two areas.
    /// The empty set alone adds nothing: where one of the two is the empty
    /// set, the area is that of the other.
    pub open spec fn union_area(self, rhs: InteractSet) -> Rect {
        if self == InteractSet::spec_empty() {
            rhs.click_area
        } else if rhs == InteractSet::spec_empty() {
            self.click_area
        } else {
            hull(seq![self.click_area, rhs.click_area])
        }
    }

    /// The union of two sets: it accepts clicks if either does, within
    /// [`Self::union_area`].
    pub open spec fn spec_union(self, rhs: InteractSet) -> InteractSet {
        InteractSet { click: self.click || rhs.click, click_area: self.union_area(rhs) }
    }

    /// Whether the set is the empty set.
    pub open spec fn spec_is_empty(&self) -> bool {
        *self == InteractSet::spec_empty()
    }

    /// Whether the set is the empty set.
    #[verifier::when_used_as_spec(spec_is_empty)]
    pub fn is_empty(&self) -> (r: bool)
        ensures
            r == self.spec_is_empty(),
    {
        !self.click && self.click_area == Rect::zeroed()
    }
}

impl Default for InteractSet {
    fn default() -> (r: InteractSet)
        ensures
            r == InteractSet::spec_empty(),
    {
        InteractSet::empty()
    }
}

impl BitOr for InteractSet {
    type Output = InteractSet;

    fn bitor(self, rhs: InteractSet) -> (r: InteractSet) {
        let area = if self.is_empty() {
            rhs.click_area
        } else if rhs.is_empty() {
            self.click_area
        } else {
            let areas = [self.click_area, rhs.click_area];
            assert(areas@ =~= seq![self.click_area, rhs.click_area]);
            match Rect::bounding_box(areas.as_slice()) {
                Some(area) => area,
                None => self.click_area,
            }
        };
        InteractSet { click: self.click || rhs.click, click_area: area }
    }
}

impl BitOrSpecImpl for InteractSet {
    open spec fn obeys_bitor_spec() -> bool {
        true
    }

    open spec fn bitor_req(self, rhs: InteractSet) -> bool {
        true
    }

    open spec fn bitor_spec(self, rhs: InteractSet) -> InteractSet {
        self.spec_union(rhs)
    }
}

/// The empty set is neutral: its union with any set, on either side, is
/// that set.
pub proof fn lemma_union_with_empty(x: InteractSet)
    ensures
        InteractSet::spec_empty().spec_union(x) == x,
        x.spec_union(InteractSet::spec_empty()) == x,
{
}

/// The union of two sets of which neither is the empty set accepts clicks
/// if either does, and its area is the hull of the two areas: it has the
/// least of their left and top edges and the greatest of their right and
/// bottom edges.
pub proof fn lemma_union_is_hull(a: InteractSet, b: InteractSet)
    requires
        a != InteractSet::spec_empty(),
        b != InteractSet::spec_empty(),
    ensures
        a.spec_union(b).click == (a.click || b.click),
        a.spec_union(b).click_area == hull(seq![a.click_area, b.click_area]),
        a.spec_union(b).click_area.x == min_int(a.click_area.x as int, b.click_area.x as int),
        a.spec_union(b).click_area.y == min_int(a.click_area.y as int, b.click_area.y as int),
        a.spec_union(b).click_area.w == clamp(
            max_int(a.click_area.x + a.click_area.w, b.click_area.x + b.click_area.w) - min_int(
                a.click_area.x as int,
                b.click_area.x as int,
            ),
        ),
        a.spec_union(b).click_area.h == clamp(
            max_int(a.click_area.y + a.click_area.h, b.click_area.y + b.click_area.h) - min_int(
                a.click_area.y as int,
                b.click_area.y as int,
            ),
        ),
{
    lemma_hull_of_two(a.click_area, b.click_area);
}

/// The order of the two sets does not matter to their union.
pub proof fn lemma_union_commutes(a: InteractSet, b: InteractSet)
    ensures
        a.spec_union(b) == b.spec_union(a),
{
    lemma_hull_of_two(a.click_area, b.click_area);
    lemma_hull_of_two(b.click_area, a.click_area);
}

/// A union accepts whatever either of the two sets accepts, as long as the
/// hull is not clamped.
pub proof fn lemma_union_accepts(a: InteractSet, b: InteractSet, interaction: Interaction)
    requires
        a.spec_accepts(&interaction) || b.spec_accepts(&interaction),
        max_int(a.click_area.x + a.click_area.w, b.click_area.x + b.click_area.w) - min_int(
            a.click_area.x as int,
            b.click_area.x as int,
        ) <= 0x7fff_ffff_ffff_ffff,
        max_int(a.click_area.y + a.click_area.h, b.click_area.y + b.click_area.h) - min_int(
            a.click_area.y as int,
            b.click_area.y as int,
        ) <= 0x7fff_ffff_ffff_ffff,
    ensures
        a.spec_union(b).spec_accepts(&interaction),
{
    lemma_hull_of_two(a.click_area, b.click_area);
}

/// A mouse button.
#[derive(Copy, Clone, Debug, PartialEq, Eq, Structural)]
pub enum MouseButton {
    Left,
    Right,
    Middle,
    Other,
}

/// Whether a button went down or up.
#[derive(Copy, Clone, Debug, PartialEq, Eq, Structural)]
pub enum ElementState {
    Pressed,
    Released,
}

/// What the window reports of the pointer.
#[derive(Copy, Clone, Debug, PartialEq, Eq, Structural)]
pub enum PointerEvent {
    /// The cursor is at a new position.
    CursorMoved { position: Point },
    /// A button changed its state.
    MouseInput { button: MouseButton, state: ElementState },
    /// Anything else.
    Other,
}

/// Follows the cursor, and turns the release of the left button into a
/// click at the place where the cursor is.
#[derive(Copy, Clone, Debug, PartialEq, Eq, Structural)]
pub struct InteractionState {
    cursor_position: Point,
}

impl InteractionState {
    /// The position at which the cursor was seen last.
    pub closed spec fn spec_cursor_position(&self) -> Point {
        self.cursor_position
    }

    /// The position at which the cursor was seen last.
    #[verifier::when_used_as_spec(spec_cursor_position)]
    pub fn cursor_position(&self) -> (r: Point)
        ensures
            r == self.spec_cursor_position(),
    {
        self.cursor_position
    }

    /// The state in which the cursor is at the origin.
    pub fn new() -> (r: InteractionState)
        ensures
            r.spec_cursor_position() == (Point { x: 0, y: 0 }),
    {
        InteractionState { cursor_position: Point::zeroed() }
    }

    /// The interaction that `event` amounts to, if any: the release of the
    /// left button is a click at the cursor.
    pub open spec fn interaction_of(&self, event: PointerEvent) -> Option<Interaction> {
        match event {
            PointerEvent::MouseInput { button: MouseButton::Left, state: ElementState::Released } => Some(
                Interaction::Click(self.spec_cursor_position()),
            ),
            _ => None,
        }
    }

    /// Whether `event` is one that this state deals with: a move of the
    /// cursor, or the release of the left button.
    pub open spec fn handles(event: PointerEvent) -> bool {
        match event {
            PointerEvent::CursorMoved { .. } => true,
            PointerEvent::MouseInput { button: MouseButton::Left, state: ElementState::Released } => true,
            _ => false,
        }
    }

    /// Takes `event` in: a move of the cursor is remembered. Returns
    /// whether the event was dealt with, and the interaction that it amounts
    /// to.
    pub fn interpret(&mut self, event: PointerEvent) -> (r: (bool, Option<Interaction>))
        ensures
            r.0 == InteractionState::handles(event),
            r.1 == old(self).interaction_of(event),
            final(self).spec_cursor_position() == match event {
                PointerEvent::CursorMoved { position } => position,
                _ => old(self).spec_cursor_position(),
            },
    {
        match event {
            PointerEvent::CursorMoved { position } => {
                self.cursor_position = position;
                (true, None)
            },
            PointerEvent::MouseInput { button, state } => {
                if button == MouseButton::Left && state == ElementState::Released {
                    (true, Some(Interaction::Click(self.cursor_position)))
                } else {
                    (false, None)
                }
            },
            PointerEvent::Other => (false, None),
        }
    }

    /// Takes `event` in as [`Self::interpret`] does, and hands the
    /// interaction that it amounts to, if any, to `send_interaction`.
    /// Returns whether the event was dealt with.
    pub fn handle_window_event<F: FnOnce(Interaction)>(
        &mut self,
        event: PointerEvent,
        send_interaction: F,
    ) -> (r: bool)
        requires
            old(self).interaction_of(event) is Some ==> call_requires(
                send_interaction,
                (old(self).interaction_of(event)->Some_0,),
            ),
        ensures
            r == InteractionState::handles(event),
            old(self).interaction_of(event) is Some ==> call_ensures(
                send_interaction,
                (old(self).interaction_of(event)->Some_0,),
                (),
            ),
            final(self).spec_cursor_position() == match event {
                PointerEvent::CursorMoved { position } => position,
                _ => old(self).spec_cursor_position(),
            },
    {
        let (handled, interaction) = self.interpret(event);
        match interaction {
            Some(interaction) => {
                send_interaction(interaction);
            },
            None => {},
        }
        handled
    }
}

} // verus!
