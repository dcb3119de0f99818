use glam::Vec2;
use lunex::layouts::{
    size_kind, Rectangle2D, Scaling, UiFlowAxis, UiFlowPadding, UiFlowSize, UiJustify,
    UiLayoutTypeBoundary,
};
use lunex::units::UiValue;

fn ab(v: f32) -> UiValue<f32> {
    UiValue { ab: Some(v), ..UiValue::new() }
}

fn ab2(x: f32, y: f32) -> UiValue<Vec2> {
    UiValue { ab: Some(Vec2::new(x, y)), ..UiValue::new() }
}

#[test]
fn rectangle_builders() {
    let r = Rectangle2D::new();
    assert_eq!(r.pos, Vec2::ZERO);
    assert_eq!(r.size, Vec2::ZERO);
    let r = r.with_pos(Vec2::new(1.0, 2.0)).with_size(Vec2::new(3.0, 4.0));
    assert_eq!(r.pos, Vec2::new(1.0, 2.0));
    assert_eq!(r.size, Vec2::new(3.0, 4.0));
    let r = r.with_pos(Vec2::new(5.0, 6.0));
    assert_eq!(r.size, Vec2::new(3.0, 4.0));
}

#[test]
fn default_enums() {
    assert_eq!(Scaling::default(), Scaling::Fit);
    assert_eq!(UiJustify::default(), UiJustify::Start);
}

#[test]
fn boundary_builders_and_setters_agree() {
    let b = UiLayoutTypeBoundary::new();
    assert!(b.pos1.is_unset() && b.pos2.is_unset());
    let built = b.pos1(ab2(1.0, 2.0)).pos2(ab2(3.0, 4.0));
    let mut set = UiLayoutTypeBoundary::new();
    set.set_pos1(ab2(1.0, 2.0));
    set.set_pos2(ab2(3.0, 4.0));
    assert_eq!(built, set);
    assert_eq!(built.pos2.ab, Some(Vec2::new(3.0, 4.0)));
}

#[test]
fn value_new_is_unset() {
    let v: UiValue<f32> = UiValue::new();
    assert!(v.is_unset());
    assert!(!ab(1.0).is_unset());
    assert_eq!(v, UiValue::default());
}

#[test]
fn padding_builders() {
    let v = ab(16.0);
    let all = UiFlowPadding::all(v);
    assert!(all.left == v && all.right == v && all.top == v && all.bottom == v);
    let x = UiFlowPadding::x(v);
    assert!(x.left == v && x.right == v && x.top.is_unset() && x.bottom.is_unset());
    let y = UiFlowPadding::y(v);
    assert!(y.left.is_unset() && y.top == v && y.bottom == v);
    assert_eq!(UiFlowPadding::left(v).left, v);
    assert!(UiFlowPadding::left(v).right.is_unset());
    assert_eq!(UiFlowPadding::right(v).right, v);
    assert_eq!(UiFlowPadding::top(v).top, v);
    assert_eq!(UiFlowPadding::bottom(v).bottom, v);
    assert!(UiFlowPadding::<f32>::default().is_empty());
    assert!(!UiFlowPadding::bottom(v).is_empty());
}

#[test]
fn axis_builders() {
    let axis = UiFlowAxis::new(UiFlowSize::Grow).max(ab(80.0));
    assert_eq!(axis.size, UiFlowSize::Grow);
    assert_eq!(axis.max, Some(ab(80.0)));
    assert_eq!(axis.min, None);
    let axis = axis.min(ab(10.0));
    assert_eq!(axis.min, Some(ab(10.0)));
    assert_eq!(axis.max, Some(ab(80.0)));
}

#[test]
fn size_kinds() {
    assert_eq!(size_kind(&UiFlowSize::<f32>::Fit), 0);
    assert_eq!(size_kind(&UiFlowSize::<f32>::Grow), 1);
    assert_eq!(size_kind(&UiFlowSize::Fixed(ab(5.0))), 2);
}
