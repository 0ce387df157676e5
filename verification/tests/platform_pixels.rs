use lgui::platform::d2d_cache::{
    bitmap_cache_eviction_plan, d2d_bitmap_cache_budget, estimated_bitmap_bytes,
    D2D_BITMAP_CACHE_MIN_BUDGET_BYTES,
};
use lgui::platform::gdi_metrics::{
    blur_cache_budget_split, gdi_cache_budget_split, record_gdi_frame_blit,
    reset_gdi_frame_blit_metrics, take_gdi_frame_blit_metrics, GdiFrameBlitKind,
    GdiFrameBlitMetrics, GdiFrameBlitSource,
};
use lgui::platform::gl::{request_gl_config_transparency, supports_window_transparency};
use lgui::platform::pixels::{
    fill_bgra, rgba_to_premultiplied_bgra, solid_bgra_pixels, synthesize_transparent_pixel,
};
use lgui::platform::tray::{
    copy_wide, is_activation_message, wide, TrayMenuActions, WM_LBUTTONDBLCLK, WM_LBUTTONUP,
};

#[test]
fn opaque_windows_do_not_require_an_alpha_channel() {
    assert!(supports_window_transparency(false, 0, Some(false), true));
    assert!(supports_window_transparency(false, 0, Some(false), false));
}

#[test]
fn transparent_windows_require_an_alpha_channel() {
    assert!(!supports_window_transparency(true, 0, Some(true), true));
    assert!(!supports_window_transparency(true, 0, Some(true), false));
}

#[test]
fn transparent_window_policy_matches_the_platform_compositor() {
    // Windows composes transparent windows through the desktop compositor.
    assert!(!request_gl_config_transparency(true, true));
    assert!(supports_window_transparency(true, 8, Some(false), true));
    // Elsewhere the GL config itself must allow transparency.
    assert!(request_gl_config_transparency(true, false));
    assert!(!supports_window_transparency(true, 8, Some(false), false));
}

#[test]
fn transparent_surface_reconstruction_preserves_black_and_partial_alpha() {
    assert_eq!(
        synthesize_transparent_pixel(&[0, 0, 0, 255], &[127, 127, 127, 255]),
        [0, 0, 0, 128]
    );
    assert_eq!(
        synthesize_transparent_pixel(&[0, 0, 128, 255], &[127, 127, 255, 255]),
        [0, 0, 128, 128]
    );
}

#[test]
fn transparent_surface_reconstruction_handles_clear_and_opaque_pixels() {
    assert_eq!(
        synthesize_transparent_pixel(&[0, 0, 0, 255], &[255, 255, 255, 255]),
        [0, 0, 0, 0]
    );
    assert_eq!(
        synthesize_transparent_pixel(&[10, 20, 30, 255], &[10, 20, 30, 255]),
        [10, 20, 30, 255]
    );
}

#[test]
fn bitmap_cache_budget_evicts_oldest_entries_and_keeps_one_oversized_entry() {
    let first = ("first", estimated_bitmap_bytes(10, 10));
    let second = ("second", estimated_bitmap_bytes(20, 10));
    let third = ("third", estimated_bitmap_bytes(30, 10));
    let entries = vec![
        (first, 1, first.1),
        (second, 2, second.1),
        (third, 3, third.1),
    ];
    let total = entries.iter().map(|(_, _, bytes)| bytes).sum();

    let evictions = bitmap_cache_eviction_plan(entries, total, third.1);

    assert_eq!(evictions, vec![first, second]);
    assert!(bitmap_cache_eviction_plan(vec![(third, 1, third.1)], third.1, 1).is_empty());
    assert_eq!(
        d2d_bitmap_cache_budget(1432, 860),
        D2D_BITMAP_CACHE_MIN_BUDGET_BYTES
    );
    assert!(d2d_bitmap_cache_budget(3840, 2160) > D2D_BITMAP_CACHE_MIN_BUDGET_BYTES);
}

#[test]
fn eviction_plan_orders_by_last_use_and_keeps_ties_in_order() {
    let entries = vec![("c", 9, 100), ("a", 3, 100), ("b", 3, 100), ("d", 1, 100)];
    assert_eq!(bitmap_cache_eviction_plan(entries, 400, 150), vec!["d", "a", "b"]);
    assert_eq!(estimated_bitmap_bytes(0, -5), 4);
    assert_eq!(estimated_bitmap_bytes(30, 10), 1200);
    assert_eq!(d2d_bitmap_cache_budget(3840, 2160), 3840 * 2160 * 16);
}

#[test]
fn tray_single_left_click_activates_the_tray_icon() {
    assert!(is_activation_message(WM_LBUTTONUP));
    assert!(!is_activation_message(WM_LBUTTONDBLCLK));
}

#[test]
fn tests_single_left_click_activates_the_tray_icon() {
    assert!(is_activation_message(WM_LBUTTONUP));
    assert!(!is_activation_message(WM_LBUTTONDBLCLK));
}

#[test]
fn tray_notification_text_is_terminated_and_truncated_to_fit() {
    let mut buffer = [9_u16; 4];
    copy_wide(&mut buffer, "ABCDE");
    assert_eq!(buffer, ['A' as u16, 'B' as u16, 'C' as u16, 0]);
}

#[test]
fn tests_notification_text_is_terminated_and_truncated_to_fit() {
    let mut buffer = [9_u16; 4];
    copy_wide(&mut buffer, "ABCDE");
    assert_eq!(buffer, ['A' as u16, 'B' as u16, 'C' as u16, 0]);
}

#[test]
fn wide_text_matches_std_utf16() {
    for text in ["", "tray", "文章", "emoji 😀 mix"] {
        let mut expected: Vec<u16> = text.encode_utf16().collect();
        expected.push(0);
        assert_eq!(wide(text), expected);
    }
    let mut short = [7_u16; 3];
    copy_wide(&mut short, "😀");
    assert_eq!(short, [0xD83D, 0xDE00, 0]);
    let mut empty: [u16; 0] = [];
    copy_wide(&mut empty, "abc");
}

#[test]
fn tray_menu_commands_find_their_actions() {
    let mut menu = TrayMenuActions::new();
    let open = menu.push('o');
    let quit = menu.push('q');
    assert_eq!((open, quit), (1, 2));
    assert_eq!(menu.action(open), Some('o'));
    assert_eq!(menu.action(quit), Some('q'));
    assert_eq!(menu.action(0), None);
    assert_eq!(menu.action(3), None);
}

#[test]
fn premultiplication_rounds_to_the_nearest_byte() {
    let bgra = rgba_to_premultiplied_bgra(&[255, 128, 0, 128, 10, 20, 30, 255, 1, 2]);
    assert_eq!(bgra, vec![0, 64, 128, 128, 30, 20, 10, 255]);
    let pixels = solid_bgra_pixels(2, 1, [1, 2, 3, 4]).unwrap();
    assert_eq!(pixels, vec![1, 2, 3, 4, 1, 2, 3, 4]);
    assert!(solid_bgra_pixels(-1, 1, [0; 4]).is_none());
    assert!(solid_bgra_pixels(65536, 65536, [0; 4]).is_none());
    assert_eq!(solid_bgra_pixels(-1, -1, [5, 6, 7, 8]).unwrap(), vec![5, 6, 7, 8]);
    let mut target = [0_u8; 10];
    fill_bgra(&mut target, &[1, 2, 3, 4]);
    assert_eq!(target, [1, 2, 3, 4, 1, 2, 3, 4, 0, 0]);
}

#[test]
fn frame_blit_metrics_count_by_source_and_reset() {
    let mut metrics = GdiFrameBlitMetrics::new();
    record_gdi_frame_blit(&mut metrics, GdiFrameBlitSource::Overlay, GdiFrameBlitKind::BitBlt, 100);
    record_gdi_frame_blit(
        &mut metrics,
        GdiFrameBlitSource::Overlay,
        GdiFrameBlitKind::FallbackAlphaBlend,
        50,
    );
    record_gdi_frame_blit(&mut metrics, GdiFrameBlitSource::Custom, GdiFrameBlitKind::AlphaBlend, 7);
    let snapshot = take_gdi_frame_blit_metrics(&mut metrics);
    assert_eq!(snapshot.blit_count, 3);
    assert_eq!(snapshot.bitblt_count, 1);
    assert_eq!(snapshot.alphablend_count, 2);
    assert_eq!(snapshot.fallback_count, 1);
    assert_eq!(snapshot.blit_pixels, 157);
    assert_eq!(snapshot.overlay.blit_count, 2);
    assert_eq!(snapshot.overlay.pixels, 150);
    assert_eq!(snapshot.custom.alphablend_count, 1);
    assert_eq!(metrics, GdiFrameBlitMetrics::new());
    record_gdi_frame_blit(&mut metrics, GdiFrameBlitSource::Other, GdiFrameBlitKind::BitBlt, u64::MAX);
    record_gdi_frame_blit(&mut metrics, GdiFrameBlitSource::Other, GdiFrameBlitKind::BitBlt, 5);
    assert_eq!(metrics.blit_pixels, u64::MAX);
    reset_gdi_frame_blit_metrics(&mut metrics);
    assert_eq!(metrics.blit_count, 0);
}

#[test]
fn cache_budgets_split_without_losing_bytes() {
    assert_eq!(gdi_cache_budget_split(600), (300, 200, 100));
    assert_eq!(blur_cache_budget_split(800), (300, 200, 300));
    let (a, b, c) = blur_cache_budget_split(usize::MAX);
    assert_eq!(a, usize::MAX / 8);
    assert_eq!(a + b + c, usize::MAX);
}

#[test]
fn premultiplied_colour_never_exceeds_alpha() {
    let rgba = [255, 255, 255, 0, 255, 200, 1, 1, 90, 255, 30, 254, 255, 255, 255, 255];
    let bgra = rgba_to_premultiplied_bgra(&rgba);
    assert_eq!(bgra.len(), 16);
    assert_eq!(bgra, vec![0, 0, 0, 0, 0, 1, 1, 1, 30, 254, 90, 254, 255, 255, 255, 255]);
    for pixel in bgra.chunks(4) {
        assert!(pixel[0] <= pixel[3] && pixel[1] <= pixel[3] && pixel[2] <= pixel[3]);
    }
}

#[test]
fn every_blit_is_a_bitblt_or_an_alpha_blend() {
    let mut metrics = GdiFrameBlitMetrics::new();
    let kinds = [
        GdiFrameBlitKind::FallbackAlphaBlend,
        GdiFrameBlitKind::BitBlt,
        GdiFrameBlitKind::AlphaBlend,
        GdiFrameBlitKind::FallbackAlphaBlend,
    ];
    for (i, kind) in kinds.iter().enumerate() {
        let source = if i % 2 == 0 { GdiFrameBlitSource::StaticLayer } else { GdiFrameBlitSource::Backdrop };
        record_gdi_frame_blit(&mut metrics, source, *kind, 10);
    }
    let snapshot = take_gdi_frame_blit_metrics(&mut metrics);
    assert_eq!(snapshot.blit_count, snapshot.bitblt_count + snapshot.alphablend_count);
    assert_eq!((snapshot.bitblt_count, snapshot.alphablend_count, snapshot.fallback_count), (1, 3, 2));
    assert_eq!(snapshot.static_layer.blit_count, 2);
    assert_eq!(snapshot.static_layer.fallback_count, 1);
    assert_eq!(snapshot.backdrop.bitblt_count + snapshot.backdrop.alphablend_count, 2);
    assert_eq!(take_gdi_frame_blit_metrics(&mut metrics), GdiFrameBlitMetrics::new());
}
