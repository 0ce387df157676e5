use lgui::platform::window::{
    adjacent_position, centered_position, near_cursor_position, window_position, MonitorArea,
    OwnerFrame, WindowId, WindowOptions, WindowPosition, prepare_auxiliary_window,
};
use lgui::platform::winit::{
    after_driver_failure, auto_driver_order_for, begin_recovery, finish_recovery,
    gpu_attempt_order, renderer_recovery_state, resize_direction, software_fallback,
    touch_phase, CompiledDrivers, GraphicsPreference, NativeTouchPhase, RecoveryStart,
    RecreateOutcome, RendererRecoveryState, ResizeDirection, TouchPhase, MAX_RECOVERY_ATTEMPTS,
};

#[test]
fn recovery_gives_up_after_the_last_attempt() {
    let mut state = RendererRecoveryState::Healthy;
    for expected in 1..=MAX_RECOVERY_ATTEMPTS {
        match begin_recovery(state, GraphicsPreference::OpenGl, true) {
            RecoveryStart::Recreate { state: next, attempt, preference, fallback_to_software } => {
                assert_eq!(attempt, expected);
                assert_eq!(preference, GraphicsPreference::OpenGl);
                assert!(!fallback_to_software);
                let (after, redraw) =
                    finish_recovery(next, attempt, fallback_to_software, RecreateOutcome::Failed);
                assert_eq!(redraw, attempt != MAX_RECOVERY_ATTEMPTS);
                state = after;
            }
            RecoveryStart::GiveUp { .. } => panic!("gave up too early"),
        }
    }
    assert_eq!(state.label(), "failed");
    assert_eq!(state.attempt(), MAX_RECOVERY_ATTEMPTS);
    match begin_recovery(state, GraphicsPreference::OpenGl, true) {
        RecoveryStart::GiveUp { state } => assert_eq!(state.attempt(), MAX_RECOVERY_ATTEMPTS),
        RecoveryStart::Recreate { .. } => panic!("recovered past the limit"),
    }
}

#[test]
fn auto_recovery_falls_back_to_software_with_a_reason() {
    let first = begin_recovery(RendererRecoveryState::Healthy, GraphicsPreference::Auto, true);
    let RecoveryStart::Recreate { state, attempt, fallback_to_software, .. } = first else {
        panic!("first failure recreates");
    };
    assert!(!fallback_to_software);
    let (state, _) = finish_recovery(
        state,
        attempt,
        fallback_to_software,
        RecreateOutcome::Created { fallback_reason: None },
    );
    assert_eq!(state.label(), "recovering");
    let second = begin_recovery(state, GraphicsPreference::Auto, true);
    let RecoveryStart::Recreate { state, attempt, preference, fallback_to_software } = second else {
        panic!("second failure recreates");
    };
    assert_eq!(preference, GraphicsPreference::Software);
    assert!(fallback_to_software);
    let (state, redraw) = finish_recovery(
        state,
        attempt,
        fallback_to_software,
        RecreateOutcome::Created { fallback_reason: None },
    );
    assert!(redraw);
    match state {
        RendererRecoveryState::Fallback { reason, attempts } => {
            assert_eq!(reason, "gpu-runtime-failed");
            assert_eq!(attempts, 2);
        }
        other => panic!("expected a fallback, got {other:?}"),
    }
    assert_eq!(
        renderer_recovery_state(Some("gpu-driver-unavailable")).label(),
        "fallback"
    );
    assert_eq!(renderer_recovery_state(None).label(), "healthy");
}

#[test]
fn explicit_drivers_report_errors_instead_of_falling_back() {
    let none = CompiledDrivers { opengl: false, vulkan: false, vulkan_in_auto: false, metal: false };
    assert!(gpu_attempt_order(GraphicsPreference::Vulkan, none).is_empty());
    let error = software_fallback(GraphicsPreference::Vulkan, None).unwrap_err();
    assert_eq!(error.message(), "the vulkan Skia driver is not available on this target");
    assert_eq!(
        software_fallback(GraphicsPreference::Auto, None).unwrap(),
        Some("gpu-driver-unavailable")
    );
    assert_eq!(software_fallback(GraphicsPreference::Software, None).unwrap(), None);
    assert_eq!(
        software_fallback(GraphicsPreference::Auto, Some("opengl-init-failed")).unwrap(),
        Some("opengl-init-failed")
    );
    assert_eq!(after_driver_failure(GraphicsPreference::OpenGl, GraphicsPreference::OpenGl), None);
    assert_eq!(
        after_driver_failure(GraphicsPreference::Auto, GraphicsPreference::Metal),
        Some("metal-init-failed")
    );
    let all = CompiledDrivers { opengl: true, vulkan: true, vulkan_in_auto: true, metal: true };
    assert_eq!(
        gpu_attempt_order(GraphicsPreference::Auto, all),
        vec![GraphicsPreference::Metal, GraphicsPreference::Vulkan, GraphicsPreference::OpenGl]
    );
    assert_eq!(
        auto_driver_order_for(all),
        vec![
            GraphicsPreference::Metal,
            GraphicsPreference::Vulkan,
            GraphicsPreference::OpenGl,
            GraphicsPreference::Software,
        ]
    );
    assert_eq!(gpu_attempt_order(GraphicsPreference::OpenGl, all), vec![GraphicsPreference::OpenGl]);
}

#[test]
fn resize_handles_prefer_corners() {
    assert_eq!(resize_direction(1, 1, 100, 80, 4), Some(ResizeDirection::NorthWest));
    assert_eq!(resize_direction(98, 1, 100, 80, 4), Some(ResizeDirection::NorthEast));
    assert_eq!(resize_direction(1, 78, 100, 80, 4), Some(ResizeDirection::SouthWest));
    assert_eq!(resize_direction(98, 78, 100, 80, 4), Some(ResizeDirection::SouthEast));
    assert_eq!(resize_direction(1, 40, 100, 80, 4), Some(ResizeDirection::West));
    assert_eq!(resize_direction(98, 40, 100, 80, 4), Some(ResizeDirection::East));
    assert_eq!(resize_direction(50, 1, 100, 80, 4), Some(ResizeDirection::North));
    assert_eq!(resize_direction(50, 79, 100, 80, 4), Some(ResizeDirection::South));
    assert_eq!(resize_direction(50, 40, 100, 80, 4), None);
    assert_eq!(resize_direction(-1, 40, 100, 80, 4), None);
    assert_eq!(touch_phase(NativeTouchPhase::Cancelled), TouchPhase::Cancelled);
}

#[test]
fn windows_are_placed_on_their_monitor() {
    let monitor = MonitorArea { x: 0, y: 0, width: 1920, height: 1080 };
    assert_eq!(adjacent_position(100, 50, 400, 300, 200, 8, Some(monitor)), (508, 50));
    assert_eq!(adjacent_position(1500, 50, 400, 300, 200, 8, Some(monitor)), (1192, 50));
    assert_eq!(adjacent_position(100, 50, 400, 300, 200, 8, None), (508, 50));
    assert_eq!(near_cursor_position(10, 10, 200, 100, 4, Some(monitor)), (14, 14));
    assert_eq!(near_cursor_position(1900, 1070, 200, 100, 4, Some(monitor)), (1696, 966));
    assert_eq!(centered_position(monitor, 1000, 500), (460, 290));
    assert_eq!(centered_position(MonitorArea { x: 0, y: 0, width: 100, height: 100 }, 201, 101), (-50, 0));
    let owner = OwnerFrame { x: 100, y: 50, width: 400, monitor: Some(monitor) };
    assert_eq!(
        window_position(WindowPosition::AdjacentToOwner { gap: 8 }, 300, 200, Some(owner), None, None),
        Some((508, 50))
    );
    assert_eq!(
        window_position(WindowPosition::AdjacentToOwner { gap: 8 }, 300, 200, None, None, None),
        None
    );
    assert_eq!(
        window_position(WindowPosition::Centered, 1000, 500, None, None, Some(monitor)),
        Some((460, 290))
    );
    assert_eq!(window_position(WindowPosition::Platform, 10, 10, None, Some((1, 1)), Some(monitor)), None);
}

#[test]
fn the_main_window_gets_no_owner() {
    let options = prepare_auxiliary_window(&WindowId::new("main"), WindowOptions::new("main"));
    assert_eq!(options.owner, None);
}
