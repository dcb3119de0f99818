use vstd::prelude::*;

use glam::Vec2;

verus! {

/// The two-component vector of `glam`, carried through the layout types as an opaque value.
#[verifier::external_type_specification]
#[verifier::external_body]
pub struct ExVec2(Vec2);

/// `glam::Vec2::ZERO`, the vector with both coordinates zero. The contract states nothing
/// of the returned value: its coordinates are floating-point numbers, which the verified
/// code never reads.
#[verifier::external_body]
pub(crate) fn vec2_zero() -> Vec2 {
    Vec2::ZERO
}

/// **Ui Value** - a length (or vector of lengths) made of optional unit components that
/// are summed when evaluated: absolute (`ab`), relative to the parent (`rl`, `rw`, `rh`),
/// font-relative (`em`), viewport-relative (`vp`, `vw`, `vh`) and leftover-space shares
/// (`sp`). A component that is `None` does not take part.
#[derive(Debug, Default, Clone, Copy, PartialEq)]
pub struct UiValue<T> {
    /// Absolute units.
    pub ab: Option<T>,
    /// Percent of the parent size along the same axis.
    pub rl: Option<T>,
    /// Percent of the parent width.
    pub rw: Option<T>,
    /// Percent of the parent height.
    pub rh: Option<T>,
    /// Multiples of the font size.
    pub em: Option<T>,
    /// Percent of the viewport size along the same axis.
    pub vp: Option<T>,
    /// Percent of the viewport width.
    pub vw: Option<T>,
    /// Percent of the viewport height.
    pub vh: Option<T>,
    /// Shares of the leftover space of a flow container.
    pub sp: Option<T>,
}

impl<T> UiValue<T> {
    /// The value with no unit component set.
    pub open spec fn unset() -> Self {
        UiValue {
            ab: None,
            rl: None,
            rw: None,
            rh: None,
            em: None,
            vp: None,
            vw: None,
            vh: None,
            sp: None,
        }
    }

    /// Whether no unit component is set.
    pub fn is_unset(&self) -> (r: bool)
        ensures
            r == (*self == Self::unset()),
    {
        self.ab.is_none() && self.rl.is_none() && self.rw.is_none() && self.rh.is_none()
            && self.em.is_none() && self.vp.is_none() && self.vw.is_none() && self.vh.is_none()
            && self.sp.is_none()
    }

    /// Creates a new value with no unit component set.
    pub fn new() -> (v: Self)
        ensures
            v == Self::unset(),
    {
        UiValue {
            ab: None,
            rl: None,
            rw: None,
            rh: None,
            em: None,
            vp: None,
            vw: None,
            vh: None,
            sp: None,
        }
    }
}

} // verus!
