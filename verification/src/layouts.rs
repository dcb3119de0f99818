use vstd::prelude::*;

use glam::Vec2;

use crate::units::{vec2_zero, UiValue};

verus! {

// #============================#
// #=== MULTIPURPOSE STRUCTS ===#

/// **Rectangle 2D** - the computed position and size of a node layout.
#[derive(Debug, Default, Clone, Copy, PartialEq)]
pub struct Rectangle2D {
    pub pos: Vec2,
    pub size: Vec2,
}

impl Rectangle2D {
    /// A new empty rectangle: position and size are both the zero vector.
    pub fn new() -> (r: Self)
        ensures
            r.pos == r.size,
    {
        let zero = vec2_zero();
        Rectangle2D { pos: zero, size: zero }
    }

    /// Replaces the position with the new value.
    pub fn with_pos(self, pos: Vec2) -> (r: Self)
        ensures
            r.pos == pos,
            r.size == self.size,
    {
        Rectangle2D { pos, size: self.size }
    }

    /// Replaces the size with the new value.
    pub fn with_size(self, size: Vec2) -> (r: Self)
        ensures
            r.pos == self.pos,
            r.size == size,
    {
        Rectangle2D { pos: self.pos, size }
    }
}

/// **Ui Flow Direction** - the direction in which the children of a flow container are laid out.
#[derive(Debug, Default, Clone, Copy, PartialEq, Eq, Structural)]
pub enum UiFlowDirection {
    /// Children are laid out from left to right with increasing x.
    #[default]
    LeftToRight,
    /// Children are laid out from right to left with decreasing x (inverted).
    RightToLeft,
    /// Children are laid out from top to bottom with increasing y.
    TopToBottom,
    /// Children are laid out from bottom to top with decreasing y (inverted).
    BottomToTop,
}

impl UiFlowDirection {
    /// Whether the direction runs along the horizontal axis.
    pub open spec fn spec_is_horizontal(self) -> bool {
        self is LeftToRight || self is RightToLeft
    }

    /// Returns `true` when the layout direction runs along the horizontal axis.
    pub fn is_horizontal(&self) -> (r: bool)
        ensures
            r == self.spec_is_horizontal(),
    {
        match self {
            UiFlowDirection::LeftToRight | UiFlowDirection::RightToLeft => true,
            _ => false,
        }
    }
}

/// **Scaling** - how a Solid node layout scales relative to its parent.
#[derive(Debug, Default, Clone, Copy, PartialEq, Eq, Structural)]
pub enum Scaling {
    /// Node layout should always cover the horizontal axis of the parent node.
    HorFill,
    /// Node layout should always cover the vertical axis of the parent node.
    VerFill,
    /// Node layout should always fit inside the parent node.
    #[default]
    Fit,
    /// Node layout should always cover all of the parent node.
    Fill,
}

/// **Ui Justify** - how child nodes are spaced along the main axis of a flow container.
/// Each mode expands into default `Sp` margins inherited by the children (overridable per
/// child); the leftover space is shared proportionally between all `Sp` claims.
#[derive(Debug, Default, Clone, Copy, PartialEq, Eq, Structural)]
pub enum UiJustify {
    /// Children are packed at the start of the main axis; the leftover space stays after the last child.
    #[default]
    Start,
    /// Children are packed at the center of the main axis; the leftover space splits evenly on both sides.
    Center,
    /// Children are packed at the end of the main axis; the leftover space stays before the first child.
    End,
    /// First and last children pin to the outer edges; the leftover space is distributed between children.
    SpaceBetween,
    /// Equal leftover space before, between and after all children.
    SpaceEvenly,
    /// Equal leftover space on both sides of each child (edges get half of the between-item space).
    SpaceAround,
}

/// **Ui Flow Size** - how a flow node takes up space inside its parent's flow, over the
/// scalar type `T` of its unit components.
#[derive(Debug, Default, Clone, Copy, PartialEq)]
pub enum UiFlowSize<T> {
    /// The node wraps tightly to the size of its contents.
    #[default]
    Fit,
    /// The node claims one `Sp` share of the parent's leftover space on top of its content.
    Grow,
    /// The node is sized by an explicit value. Any `Sp` component acts as a leftover-space claim.
    Fixed(UiValue<T>),
}

/// Kind discriminator of a flow size: `0` for `Fit`, `1` for `Grow`, `2` for `Fixed`.
pub open spec fn spec_size_kind<T>(size: UiFlowSize<T>) -> u8 {
    match size {
        UiFlowSize::Fit => 0,
        UiFlowSize::Grow => 1,
        UiFlowSize::Fixed(_) => 2,
    }
}

/// Two flow sizes have the same kind exactly when they are the same variant: the kind
/// never depends on the value held by a `Fixed` size, and `Fit`, `Grow` and `Fixed` are
/// three distinct kinds.
pub proof fn lemma_size_kind_by_variant<T>(a: UiFlowSize<T>, b: UiFlowSize<T>)
    ensures
        (spec_size_kind(a) == spec_size_kind(b)) == ((a is Fit && b is Fit) || (a is Grow && b is Grow)
            || (a is Fixed && b is Fixed)),
{
}

/// Kind discriminator for [`UiFlowSize`] used to detect unblendable variant mixes.
pub fn size_kind<T>(size: &UiFlowSize<T>) -> (kind: u8)
    ensures
        kind == spec_size_kind(*size),
        (kind == 0) == (*size is Fit),
        (kind == 1) == (*size is Grow),
        (kind == 2) == (*size is Fixed),
{
    match size {
        UiFlowSize::Fit => 0,
        UiFlowSize::Grow => 1,
        UiFlowSize::Fixed(_) => 2,
    }
}

/// **Ui Flow Axis** - the sizing of one axis of a flow node: how it takes up space, and
/// optional minimum and maximum clamps.
#[derive(Debug, Default, Clone, Copy, PartialEq)]
pub struct UiFlowAxis<T> {
    /// How the node takes up space along this axis.
    pub size: UiFlowSize<T>,
    /// The smallest size the node is allowed to shrink to.
    pub min: Option<UiValue<T>>,
    /// The largest size the node is allowed to grow to.
    pub max: Option<UiValue<T>>,
}

impl<T> UiFlowAxis<T> {
    /// Creates a new axis with the given sizing and no clamps.
    pub fn new(size: UiFlowSize<T>) -> (r: Self)
        ensures
            r.size == size,
            r.min is None,
            r.max is None,
    {
        Self { size, min: None, max: None }
    }

    /// Replaces the minimum clamp with a new value.
    pub fn min(self, min: UiValue<T>) -> (r: Self)
        ensures
            r.size == self.size,
            r.min == Some(min),
            r.max == self.max,
    {
        Self { size: self.size, min: Some(min), max: self.max }
    }

    /// Replaces the maximum clamp with a new value.
    pub fn max(self, max: UiValue<T>) -> (r: Self)
        ensures
            r.size == self.size,
            r.min == self.min,
            r.max == Some(max),
    {
        Self { size: self.size, min: self.min, max: Some(max) }
    }
}

impl<T> From<UiFlowSize<T>> for UiFlowAxis<T> {
    /// An axis with the given sizing and no clamps.
    fn from(value: UiFlowSize<T>) -> (r: Self) {
        UiFlowAxis::new(value)
    }
}

impl<T> vstd::std_specs::convert::FromSpecImpl<UiFlowSize<T>> for UiFlowAxis<T> {
    open spec fn obeys_from_spec() -> bool {
        true
    }

    open spec fn from_spec(v: UiFlowSize<T>) -> Self {
        UiFlowAxis { size: v, min: None, max: None }
    }
}

/// **Ui Flow Padding** - values on the four sides of a flow node: the gap between its
/// bounding box and its children (padding), or the spacing around it within its parent's
/// flow (margin).
#[derive(Debug, Default, Clone, Copy, PartialEq)]
pub struct UiFlowPadding<T> {
    /// Value on the left side.
    pub left: UiValue<T>,
    /// Value on the right side.
    pub right: UiValue<T>,
    /// Value on the top side.
    pub top: UiValue<T>,
    /// Value on the bottom side.
    pub bottom: UiValue<T>,
}

impl<T> UiFlowPadding<T> {
    /// No side carries any unit.
    pub open spec fn spec_is_empty(&self) -> bool {
        &&& self.left == UiValue::<T>::unset()
        &&& self.right == UiValue::<T>::unset()
        &&& self.top == UiValue::<T>::unset()
        &&& self.bottom == UiValue::<T>::unset()
    }

    /// Returns `true` if no side carries any unit.
    pub fn is_empty(&self) -> (r: bool)
        ensures
            r == self.spec_is_empty(),
    {
        self.left.is_unset() && self.right.is_unset() && self.top.is_unset()
            && self.bottom.is_unset()
    }

    /// Creates padding with the same value on all sides.
    pub fn all(value: UiValue<T>) -> (r: Self) where T: Copy
        ensures
            r.left == value && r.right == value && r.top == value && r.bottom == value,
    {
        Self { left: value, right: value, top: value, bottom: value }
    }

    /// Creates padding on the horizontal axis only.
    pub fn x(value: UiValue<T>) -> (r: Self) where T: Copy
        ensures
            r.left == value && r.right == value,
            r.top == UiValue::<T>::unset() && r.bottom == UiValue::<T>::unset(),
    {
        Self { left: value, right: value, top: UiValue::new(), bottom: UiValue::new() }
    }

    /// Creates padding on the vertical axis only.
    pub fn y(value: UiValue<T>) -> (r: Self) where T: Copy
        ensures
            r.left == UiValue::<T>::unset() && r.right == UiValue::<T>::unset(),
            r.top == value && r.bottom == value,
    {
        Self { left: UiValue::new(), right: UiValue::new(), top: value, bottom: value }
    }

    /// Creates padding on the left side only.
    pub fn left(value: UiValue<T>) -> (r: Self)
        ensures
            r.left == value,
            r.right == UiValue::<T>::unset() && r.top == UiValue::<T>::unset()
                && r.bottom == UiValue::<T>::unset(),
    {
        Self { left: value, right: UiValue::new(), top: UiValue::new(), bottom: UiValue::new() }
    }

    /// Creates padding on the right side only.
    pub fn right(value: UiValue<T>) -> (r: Self)
        ensures
            r.right == value,
            r.left == UiValue::<T>::unset() && r.top == UiValue::<T>::unset()
                && r.bottom == UiValue::<T>::unset(),
    {
        Self { left: UiValue::new(), right: value, top: UiValue::new(), bottom: UiValue::new() }
    }

    /// Creates padding on the top side only.
    pub fn top(value: UiValue<T>) -> (r: Self)
        ensures
            r.top == value,
            r.left == UiValue::<T>::unset() && r.right == UiValue::<T>::unset()
                && r.bottom == UiValue::<T>::unset(),
    {
        Self { left: UiValue::new(), right: UiValue::new(), top: value, bottom: UiValue::new() }
    }

    /// Creates padding on the bottom side only.
    pub fn bottom(value: UiValue<T>) -> (r: Self)
        ensures
            r.bottom == value,
            r.left == UiValue::<T>::unset() && r.right == UiValue::<T>::unset()
                && r.top == UiValue::<T>::unset(),
    {
        Self { left: UiValue::new(), right: UiValue::new(), top: UiValue::new(), bottom: value }
    }
}

// #====================#
// #=== LAYOUT TYPES ===#

/// **Boundary** - declarative layout type defined by its top-left and bottom-right corners.
#[derive(Debug, Default, Clone, Copy, PartialEq)]
pub struct UiLayoutTypeBoundary {
    /// Position of the top-left corner.
    pub pos1: UiValue<Vec2>,
    /// Position of the bottom-right corner.
    pub pos2: UiValue<Vec2>,
}

impl UiLayoutTypeBoundary {
    /// Creates a new empty Boundary node layout: both corners have no unit set.
    pub fn new() -> (r: Self)
        ensures
            r.pos1 == UiValue::<Vec2>::unset(),
            r.pos2 == UiValue::<Vec2>::unset(),
    {
        Self { pos1: UiValue::new(), pos2: UiValue::new() }
    }

    /// Replaces the position of the top-left corner with a new value.
    pub fn pos1(self, pos: UiValue<Vec2>) -> (r: Self)
        ensures
            r.pos1 == pos,
            r.pos2 == self.pos2,
    {
        Self { pos1: pos, pos2: self.pos2 }
    }

    /// Replaces the position of the bottom-right corner with a new value.
    pub fn pos2(self, pos: UiValue<Vec2>) -> (r: Self)
        ensures
            r.pos1 == self.pos1,
            r.pos2 == pos,
    {
        Self { pos1: self.pos1, pos2: pos }
    }

    /// Sets the position of the top-left corner to a new value.
    pub fn set_pos1(&mut self, pos: UiValue<Vec2>)
        ensures
            final(self).pos1 == pos,
            final(self).pos2 == old(self).pos2,
    {
        self.pos1 = pos;
    }

    /// Sets the position of the bottom-right corner to a new value.
    pub fn set_pos2(&mut self, pos: UiValue<Vec2>)
        ensures
            final(self).pos1 == old(self).pos1,
            final(self).pos2 == pos,
    {
        self.pos2 = pos;
    }
}

} // verus!
