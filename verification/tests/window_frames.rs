use lgui::geometry::PhysicalRect;
use lgui::platform::winit::{
    frame_plan, recovery_after_presented_frame, window_drag_on_press, FramePlan, PointerButton,
    RenderGate, RendererRecoveryState, ResizeDirection, WindowDrag,
};
use lgui::renderer::FrameReason;

fn gate(width: u32, height: u32) -> RenderGate {
    RenderGate {
        visible: true,
        owner_suppressed: false,
        occluded: false,
        recovery: RendererRecoveryState::Healthy,
        width,
        height,
    }
}

#[test]
fn hidden_occluded_failed_or_empty_windows_skip_the_frame() {
    let dirty = [PhysicalRect::new(0, 0, 10, 10)];
    assert!(matches!(frame_plan(RenderGate { visible: false, ..gate(100, 80) }, true, &dirty, false), FramePlan::Skip));
    assert!(matches!(frame_plan(RenderGate { occluded: true, ..gate(100, 80) }, false, &dirty, false), FramePlan::Skip));
    assert!(matches!(
        frame_plan(RenderGate { recovery: RendererRecoveryState::Failed { attempts: 3 }, ..gate(100, 80) }, true, &dirty, false),
        FramePlan::Skip
    ));
    assert!(matches!(frame_plan(gate(0, 80), true, &dirty, false), FramePlan::Skip));
}

#[test]
fn dirty_rectangles_are_clipped_to_the_viewport() {
    let dirty = [
        PhysicalRect::new(-5, -5, 10, 10),
        PhysicalRect::new(200, 200, 300, 300),
        PhysicalRect::new(90, 70, 120, 90),
    ];
    match frame_plan(gate(100, 80), false, &dirty, false) {
        FramePlan::Draw { damage, reason, full_redraw } => {
            assert_eq!(damage, vec![PhysicalRect::new(0, 0, 10, 10), PhysicalRect::new(90, 70, 100, 80)]);
            assert_eq!(reason, FrameReason::SceneChange);
            assert!(!full_redraw);
        }
        other => panic!("unexpected plan {other:?}"),
    }
    let outside = [PhysicalRect::new(200, 200, 300, 300)];
    assert!(matches!(frame_plan(gate(100, 80), false, &outside, false), FramePlan::Idle));
}

#[test]
fn full_redraws_cover_the_viewport() {
    match frame_plan(gate(100, 80), true, &[], false) {
        FramePlan::Draw { damage, reason, full_redraw } => {
            assert_eq!(damage, vec![PhysicalRect::new(0, 0, 100, 80)]);
            assert_eq!(reason, FrameReason::Resize);
            assert!(full_redraw);
        }
        other => panic!("unexpected plan {other:?}"),
    }
    let dirty = [PhysicalRect::new(0, 0, 10, 10)];
    assert!(matches!(frame_plan(gate(100, 80), false, &dirty, true), FramePlan::Draw { full_redraw: true, .. }));
}

#[test]
fn a_presented_frame_clears_the_recovery_attempts() {
    assert!(matches!(
        recovery_after_presented_frame(RendererRecoveryState::Fallback { reason: "vulkan", attempts: 2 }),
        RendererRecoveryState::Fallback { reason: "vulkan", attempts: 0 }
    ));
    assert!(matches!(
        recovery_after_presented_frame(RendererRecoveryState::Recovering { attempt: 1, gpu_failure: true }),
        RendererRecoveryState::Healthy
    ));
}

#[test]
fn rectangles_intersect_only_where_they_overlap() {
    let a = PhysicalRect::new(0, 0, 10, 10);
    assert_eq!(a.intersect(PhysicalRect::new(5, 5, 20, 20)), Some(PhysicalRect::new(5, 5, 10, 10)));
    assert_eq!(a.intersect(PhysicalRect::new(10, 0, 20, 10)), None);
}

#[test]
fn left_presses_resize_on_the_border_or_move_by_drag_regions() {
    let east = Some(ResizeDirection::East);
    assert_eq!(window_drag_on_press(true, PointerButton::Left, false, true, east, true), WindowDrag::Resize(ResizeDirection::East));
    assert_eq!(window_drag_on_press(true, PointerButton::Left, false, false, east, true), WindowDrag::Move);
    assert_eq!(window_drag_on_press(true, PointerButton::Left, false, true, None, false), WindowDrag::Nothing);
    assert_eq!(window_drag_on_press(true, PointerButton::Right, false, true, east, true), WindowDrag::Nothing);
    assert_eq!(window_drag_on_press(true, PointerButton::Left, true, true, east, true), WindowDrag::Nothing);
    assert_eq!(window_drag_on_press(false, PointerButton::Left, false, true, east, true), WindowDrag::Nothing);
}
