use lgui::platform::window::{prepare_auxiliary_window, WindowId, WindowOptions};
use lgui::platform::winit::{
    auto_driver_order, compiled_drivers, graphics_preference_supported, pointer_button,
    recovery_preference, GraphicsPreference, MouseButton, PointerButton, WinitApplication,
    damage_spans, pack_xrgb, DamageSpan,
};
use lgui::geometry::PhysicalRect;

fn software_backend_case() {
    let backend = WinitApplication::new(GraphicsPreference::Vulkan);
    assert_eq!(backend.preference(), GraphicsPreference::Vulkan);
}

fn mouse_buttons_case() {
    assert_eq!(pointer_button(MouseButton::Back), PointerButton::Back);
    assert_eq!(
        pointer_button(MouseButton::Other(9)),
        PointerButton::Other(9)
    );
}

fn auto_recovery_case() {
    assert_eq!(
        recovery_preference(GraphicsPreference::Auto, false, true, 1),
        (GraphicsPreference::Auto, false)
    );
    assert_eq!(
        recovery_preference(GraphicsPreference::Auto, false, true, 2),
        (GraphicsPreference::Software, true)
    );
}

fn explicit_gpu_case() {
    assert_eq!(
        recovery_preference(GraphicsPreference::OpenGl, false, true, 3),
        (GraphicsPreference::OpenGl, false)
    );
}

fn driver_support_case() {
    let drivers = compiled_drivers();
    assert!(graphics_preference_supported(GraphicsPreference::Auto));
    assert!(graphics_preference_supported(GraphicsPreference::Software));
    assert_eq!(
        graphics_preference_supported(GraphicsPreference::OpenGl),
        drivers.opengl
    );
    assert_eq!(
        graphics_preference_supported(GraphicsPreference::Vulkan),
        drivers.vulkan
    );
    assert_eq!(
        graphics_preference_supported(GraphicsPreference::Metal),
        drivers.metal
    );
}

fn auto_driver_order_case() {
    let drivers = compiled_drivers();
    let order = auto_driver_order();
    assert_eq!(order.last(), Some(&GraphicsPreference::Software));
    let expected_first = if drivers.metal {
        GraphicsPreference::Metal
    } else if drivers.vulkan_in_auto {
        GraphicsPreference::Vulkan
    } else if drivers.opengl {
        GraphicsPreference::OpenGl
    } else {
        GraphicsPreference::Software
    };
    assert_eq!(order.first(), Some(&expected_first));
}

fn auxiliary_inherit_case() {
    let options = prepare_auxiliary_window(&WindowId::new("main"), WindowOptions::new("chat"));
    assert_eq!(options.owner, Some(WindowId::new("main")));
}

fn auxiliary_explicit_case() {
    let options = prepare_auxiliary_window(
        &WindowId::new("main"),
        WindowOptions::new("chat").owner("workspace"),
    );
    assert_eq!(options.owner, Some(WindowId::new("workspace")));
}

#[test]
fn winit_software_backend_rejects_an_explicit_unavailable_driver() {
    software_backend_case();
}

#[test]
fn winit_mouse_buttons_keep_extended_button_identity() {
    mouse_buttons_case();
}

#[test]
fn winit_auto_recovery_is_bounded_before_software_fallback() {
    auto_recovery_case();
}

#[test]
fn winit_explicit_gpu_recovery_never_silently_falls_back() {
    explicit_gpu_case();
}

#[test]
fn winit_driver_support_matches_compiled_winit_backends() {
    driver_support_case();
}

#[test]
fn winit_auto_driver_order_matches_each_platform_policy() {
    auto_driver_order_case();
}

#[test]
fn winit_auxiliary_windows_inherit_the_main_owner_and_application_context() {
    auxiliary_inherit_case();
}

#[test]
fn winit_auxiliary_windows_preserve_an_explicit_owner() {
    auxiliary_explicit_case();
}

#[test]
fn tests_software_backend_rejects_an_explicit_unavailable_driver() {
    software_backend_case();
}

#[test]
fn tests_mouse_buttons_keep_extended_button_identity() {
    mouse_buttons_case();
}

#[test]
fn tests_auto_recovery_is_bounded_before_software_fallback() {
    auto_recovery_case();
}

#[test]
fn tests_explicit_gpu_recovery_never_silently_falls_back() {
    explicit_gpu_case();
}

#[test]
fn tests_driver_support_matches_compiled_winit_backends() {
    driver_support_case();
}

#[test]
fn tests_auto_driver_order_matches_each_platform_policy() {
    auto_driver_order_case();
}

#[test]
fn tests_auxiliary_windows_inherit_the_main_owner_and_application_context() {
    auxiliary_inherit_case();
}

#[test]
fn tests_auxiliary_windows_preserve_an_explicit_owner() {
    auxiliary_explicit_case();
}

#[test]
fn software_frames_pack_bgra_into_xrgb_words() {
    let mut buffer = vec![7_u32; 3];
    pack_xrgb(&mut buffer, &[0x10, 0x20, 0x30, 0xff, 0x01, 0x02, 0x03, 0x00, 0xaa]);
    assert_eq!(buffer, vec![0x302010, 0x030201, 7]);
    let mut short = vec![0_u32; 1];
    pack_xrgb(&mut short, &[1, 2, 3, 4, 5, 6, 7, 8]);
    assert_eq!(short, vec![0x030201]);
}

#[test]
fn damage_spans_clamp_origins_and_skip_empty_rectangles() {
    let damage = [
        PhysicalRect::new(-5, 2, 10, 12),
        PhysicalRect::new(3, 3, 3, 9),
        PhysicalRect::new(4, -1, 6, 0),
        PhysicalRect::new(8, 8, 2, 9),
    ];
    assert_eq!(
        damage_spans(&damage),
        vec![
            DamageSpan { x: 0, y: 2, width: 15, height: 10 },
            DamageSpan { x: 4, y: 0, width: 2, height: 1 },
        ]
    );
}
