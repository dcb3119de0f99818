use lunex::flow::{axis_of, inject_margins, justify_template, pack_lines_grid, UiFlowText};
use lunex::layouts::{UiFlowDirection, UiFlowPadding, UiJustify};
use lunex::units::UiValue;

#[test]
fn flow_text_constructors() {
    assert!(UiFlowText::wrapped().wrap);
    assert!(!UiFlowText::unwrapped().wrap);
    assert_eq!(UiFlowText::default(), UiFlowText::unwrapped());
}

#[test]
fn direction_axis() {
    assert!(UiFlowDirection::LeftToRight.is_horizontal());
    assert!(UiFlowDirection::RightToLeft.is_horizontal());
    assert!(!UiFlowDirection::TopToBottom.is_horizontal());
    assert!(!UiFlowDirection::BottomToTop.is_horizontal());
    assert_eq!(axis_of(UiFlowDirection::LeftToRight), 0);
    assert_eq!(axis_of(UiFlowDirection::RightToLeft), 0);
    assert_eq!(axis_of(UiFlowDirection::TopToBottom), 1);
    assert_eq!(axis_of(UiFlowDirection::BottomToTop), 1);
}

#[test]
fn grid_lines_chunk_by_track_count() {
    assert_eq!(pack_lines_grid(5, 2, true), vec![vec![0, 1], vec![2, 3], vec![4]]);
    assert_eq!(pack_lines_grid(4, 2, true), vec![vec![0, 1], vec![2, 3]]);
    assert_eq!(pack_lines_grid(3, 1, true), vec![vec![0], vec![1], vec![2]]);
    assert_eq!(pack_lines_grid(2, 5, true), vec![vec![0, 1]]);
}

#[test]
fn grid_lines_without_tracks_hold_one_item_each() {
    assert_eq!(pack_lines_grid(3, 0, true), vec![vec![0], vec![1], vec![2]]);
}

#[test]
fn grid_lines_without_wrap_stay_on_one_line() {
    assert_eq!(pack_lines_grid(4, 1, false), vec![vec![0, 1, 2, 3]]);
    assert_eq!(pack_lines_grid(0, 3, false), vec![Vec::<usize>::new()]);
}

#[test]
fn grid_lines_of_no_children() {
    assert!(pack_lines_grid(0, 3, true).is_empty());
}

#[test]
fn grid_child_sits_on_line_k_div_t_at_track_k_mod_t() {
    let (n, t) = (11, 3);
    let lines = pack_lines_grid(n, t, true);
    assert_eq!(lines.len(), (n + t - 1) / t);
    for k in 0..n {
        assert_eq!(lines[k / t][k % t], k);
    }
    for (l, line) in lines.iter().enumerate() {
        assert!(!line.is_empty() && line.len() <= t);
        if l + 1 < lines.len() {
            assert_eq!(line.len(), t);
        }
    }
}

#[test]
fn justify_templates_per_child() {
    assert_eq!(justify_template(UiJustify::Start, true, false), (0, 0));
    assert_eq!(justify_template(UiJustify::Center, true, false), (1, 0));
    assert_eq!(justify_template(UiJustify::Center, false, true), (0, 1));
    assert_eq!(justify_template(UiJustify::End, true, true), (1, 0));
    assert_eq!(justify_template(UiJustify::End, false, true), (0, 0));
    assert_eq!(justify_template(UiJustify::SpaceBetween, true, false), (0, 0));
    assert_eq!(justify_template(UiJustify::SpaceBetween, false, true), (1, 0));
    assert_eq!(justify_template(UiJustify::SpaceEvenly, false, false), (1, 0));
    assert_eq!(justify_template(UiJustify::SpaceEvenly, false, true), (1, 1));
    assert_eq!(justify_template(UiJustify::SpaceAround, false, false), (1, 1));
}

/// Slot weights of a line: before the first child, between neighbours, after the last.
fn slots(justify: UiJustify, n: usize) -> Vec<u32> {
    let t: Vec<(u32, u32)> = (0..n).map(|k| justify_template(justify, k == 0, k == n - 1)).collect();
    let mut out = vec![t[0].0];
    for k in 1..n {
        out.push(t[k - 1].1 + t[k].0);
    }
    out.push(t[n - 1].1);
    out
}

#[test]
fn justify_slots_share_leftover_as_promised() {
    assert_eq!(slots(UiJustify::Start, 3), vec![0, 0, 0, 0]);
    assert_eq!(slots(UiJustify::Center, 3), vec![1, 0, 0, 1]);
    assert_eq!(slots(UiJustify::End, 3), vec![1, 0, 0, 0]);
    assert_eq!(slots(UiJustify::SpaceBetween, 3), vec![0, 1, 1, 0]);
    assert_eq!(slots(UiJustify::SpaceEvenly, 3), vec![1, 1, 1, 1]);
    assert_eq!(slots(UiJustify::SpaceAround, 3), vec![1, 2, 2, 1]);
}

#[test]
fn justify_space_between_single_child_pins_to_start_weights() {
    assert_eq!(slots(UiJustify::SpaceBetween, 1), vec![0, 0]);
    assert_eq!(slots(UiJustify::Center, 1), vec![1, 1]);
}

#[test]
fn injected_margins_fill_only_undefined_sides() {
    let own_left = UiValue { ab: Some(10.0f32), ..UiValue::new() };
    let own = UiFlowPadding { left: own_left, ..UiFlowPadding::default() };
    // Horizontal parent: main template on left/right, cross template on top/bottom.
    let m = inject_margins(&own, true, (Some(1.0), Some(2.0)), (None, Some(0.5)));
    assert_eq!(m.left, own_left);
    assert_eq!(m.right.sp, Some(2.0));
    assert!(m.right.ab.is_none());
    assert!(m.top.is_unset());
    assert_eq!(m.bottom.sp, Some(0.5));
    // Vertical parent: main template on top/bottom, cross template on left/right.
    let m = inject_margins(&own, false, (Some(1.0), None), (Some(3.0), Some(4.0)));
    assert_eq!(m.left, own_left);
    assert_eq!(m.right.sp, Some(4.0));
    assert_eq!(m.top.sp, Some(1.0));
    assert!(m.bottom.is_unset());
}
