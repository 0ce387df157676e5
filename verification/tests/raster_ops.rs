use lgui::geometry::PhysicalRect;
use lgui::platform::accessibility::SemanticIds;
use lgui::platform::blur::crop_bgra;
use lgui::platform::svg::builtin_svg;
use lgui::platform::gdi_bitmap_cache::GdiBitmapCache;
use lgui::platform::gdi_text::gdi_text_runs;
use lgui::platform::pixels::{
    clear_alpha_buffer, clipped_surface_region, color_components, color_to_argb, colorref,
    fill_surface_region,
    prepare_alpha_buffer, set_drawn_pixel_alpha, set_opaque_alpha, set_surface_alpha_region,
    synthesize_transparent_region, StaticLayerBackground,
};
use lgui::platform::window::{
    layered_window_frame, unpack_point, wheel_delta, wheel_scroll_units, LayeredWindowPosition,
};
use lgui::platform::winit::{GraphicsPreference, SkiaBackend};
use lgui::renderer::shadow::{extrema_line, spread_mask};
use lgui::renderer::{RendererKind, RendererProbeError};

fn numbered_source(width: usize, height: usize) -> Vec<u8> {
    let mut source = Vec::new();
    for pixel in 0..width * height {
        for channel in 0..4 {
            source.push((pixel * 4 + channel) as u8);
        }
    }
    source
}

fn pixel_of(buffer: &[u8], index: usize) -> [u8; 4] {
    [buffer[index * 4], buffer[index * 4 + 1], buffer[index * 4 + 2], buffer[index * 4 + 3]]
}

#[test]
fn gdi_bitmap_cache_probes_an_existing_entry_without_source_pixels() {
    let mut cache = GdiBitmapCache::default();
    cache.budget_bytes = 4096;
    let pixels = vec![255; 8 * 8 * 4];

    assert!(cache.entry("blur", 8, 8, &pixels, true).is_some());
    let misses = cache.misses;
    assert!(cache.existing_entry("blur", 8, 8).is_some());
    assert_eq!(cache.hits, 1);
    assert_eq!(cache.misses, misses);
    assert!(cache.existing_entry("blur", 9, 8).is_none());
    assert_eq!(cache.misses, misses);
}

#[test]
fn gdi_bitmap_cache_stores_nothing_when_the_bitmap_cannot_be_created() {
    let mut cache = GdiBitmapCache::new();
    cache.budget_bytes = 4096;
    let pixels = vec![9; 2 * 2 * 4];
    assert!(cache.entry("icon", 2, 2, &pixels, true).is_some());
    assert_eq!(cache.bytes, 16);
    assert!(cache.entry("icon", 1, 4, &pixels, false).is_none());
    assert_eq!(cache.len(), 0);
    assert_eq!(cache.bytes, 0);
    assert_eq!((cache.hits, cache.misses, cache.tick), (0, 2, 2));
    assert!(cache.entry("icon", 1, 4, &pixels, true).is_some());
    assert!(cache.entry("icon", 1, 4, &pixels, false).is_some());
    assert_eq!(cache.hits, 1);
}

#[test]
fn gdi_bitmap_cache_evicts_the_least_recently_used_bitmap() {
    let mut cache = GdiBitmapCache::new();
    cache.budget_bytes = 2 * 16 * 4;
    let first = vec![0; 16 * 4];
    let second = vec![255; 16 * 4];
    let first_surface = cache.entry("first", 4, 4, &first, true).unwrap();
    assert!(!first_surface.opaque);
    assert!(cache.entry("second", 4, 4, &second, true).unwrap().opaque);
    assert!(cache.existing_entry("first", 4, 4).is_some());
    assert!(cache.entry("third", 4, 4, &first, true).is_some());
    assert_eq!(cache.len(), 2);
    assert_eq!(cache.evictions, 1);
    assert!(cache.existing_entry("second", 4, 4).is_none());
    assert!(cache.existing_entry("first", 4, 4).is_some());
    assert_eq!(cache.bytes, 2 * 16 * 4);
}

#[test]
fn gdi_bitmap_cache_refuses_oversized_or_malformed_pixels() {
    let mut cache = GdiBitmapCache::new();
    cache.budget_bytes = 64;
    assert!(cache.entry("big", 8, 8, &vec![0; 256], true).is_none());
    assert!(cache.entry("short", 4, 4, &vec![0; 60], true).is_none());
    assert_eq!(cache.misses, 2);
    assert_eq!(cache.len(), 0);
    assert!(cache.entry("ok", 4, 4, &vec![0; 64], true).is_some());
    assert!(cache.entry("ok", 2, 8, &vec![0; 64], true).is_some());
    assert_eq!(cache.len(), 1);
    assert_eq!(cache.misses, 4);
    assert_eq!(cache.trim_to(0), 64);
    assert_eq!(cache.len(), 0);
    assert_eq!(cache.budget_bytes, 64);
    cache.set_budget(0);
    assert_eq!(cache.budget_bytes, 0);
}

#[test]
fn crop_inside_the_source_copies_its_rows() {
    let source = numbered_source(4, 3);
    let out = crop_bgra(&source, 4, 3, PhysicalRect::new(1, 1, 3, 3), 2, 2).unwrap();
    assert_eq!(out.len(), 16);
    assert_eq!(pixel_of(&out, 0), pixel_of(&source, 5));
    assert_eq!(pixel_of(&out, 1), pixel_of(&source, 6));
    assert_eq!(pixel_of(&out, 2), pixel_of(&source, 9));
    assert_eq!(pixel_of(&out, 3), pixel_of(&source, 10));
}

#[test]
fn crop_past_the_source_repeats_its_edge_pixels() {
    let source = numbered_source(2, 2);
    let out = crop_bgra(&source, 2, 2, PhysicalRect::new(-1, -1, 2, 2), 3, 3).unwrap();
    let expected = [0, 0, 1, 0, 0, 1, 2, 2, 3];
    for (index, source_pixel) in expected.iter().enumerate() {
        assert_eq!(pixel_of(&out, index), pixel_of(&source, *source_pixel));
    }
    let beside = crop_bgra(&source, 2, 2, PhysicalRect::new(5, 0, 7, 1), 2, 1).unwrap();
    assert_eq!(pixel_of(&beside, 0), pixel_of(&source, 1));
    assert_eq!(pixel_of(&beside, 1), pixel_of(&source, 1));
}

#[test]
fn crop_rejects_empty_sizes_and_wrong_lengths() {
    let source = numbered_source(2, 2);
    assert!(crop_bgra(&source, 2, 2, PhysicalRect::new(0, 0, 1, 1), 0, 1).is_none());
    assert!(crop_bgra(&source, 3, 2, PhysicalRect::new(0, 0, 1, 1), 1, 1).is_none());
    assert!(crop_bgra(&source, 0, 2, PhysicalRect::new(0, 0, 1, 1), 1, 1).is_none());
}

#[test]
fn dilation_spreads_the_largest_sample_over_the_radius() {
    assert_eq!(extrema_line(&[0, 0, 9, 0, 0], 1, true), vec![0, 9, 9, 9, 0]);
    assert_eq!(extrema_line(&[1, 5, 2, 7, 3], 2, true), vec![5, 7, 7, 7, 7]);
    assert_eq!(extrema_line(&[4, 1], 9, true), vec![4, 4]);
    assert_eq!(extrema_line(&[], 3, true), Vec::<u8>::new());
}

#[test]
fn erosion_reads_zero_beyond_the_line() {
    assert_eq!(extrema_line(&[5, 5, 5, 5], 1, false), vec![0, 5, 5, 0]);
    assert_eq!(extrema_line(&[9, 3, 8, 8, 8], 1, false), vec![0, 3, 3, 8, 0]);
    assert_eq!(extrema_line(&[7, 7, 7], 0, false), vec![7, 7, 7]);
}

#[test]
fn spreading_a_mask_grows_and_shrinks_a_square() {
    let mut mask = vec![0u8; 25];
    mask[12] = 200;
    let grown = spread_mask(&mask, 5, 5, 1, true);
    for y in 0..5 {
        for x in 0..5 {
            let inside = (1..=3).contains(&x) && (1..=3).contains(&y);
            assert_eq!(grown[y * 5 + x], if inside { 200 } else { 0 });
        }
    }
    let shrunk = spread_mask(&grown, 5, 5, 1, false);
    assert_eq!(shrunk, mask);
    let padded = spread_mask(&[9, 9, 9, 9, 1, 2], 2, 2, 0, true);
    assert_eq!(padded, vec![9, 9, 9, 9, 0, 0]);
}

#[test]
fn alpha_buffers_are_cleared_and_prepared_per_background() {
    let mut pixels = vec![1, 2, 3, 0, 0, 0, 0, 0, 9, 9];
    set_drawn_pixel_alpha(&mut pixels, 2, 1);
    assert_eq!(pixels, vec![1, 2, 3, 255, 0, 0, 0, 0, 9, 9]);
    let mut opaque = vec![1, 2, 3, 4, 5, 6, 7, 8];
    set_opaque_alpha(&mut opaque, 1, 2);
    assert_eq!(opaque, vec![1, 2, 3, 255, 5, 6, 7, 255]);
    let mut prepared = vec![0, 0, 7, 0];
    prepare_alpha_buffer(&mut prepared, 1, 1, StaticLayerBackground::Transparent);
    assert_eq!(prepared, vec![0, 0, 7, 255]);
    let mut untouched = vec![0, 0, 0, 0];
    prepare_alpha_buffer(&mut untouched, 1, 1, StaticLayerBackground::Transparent);
    assert_eq!(untouched, vec![0, 0, 0, 0]);
    prepare_alpha_buffer(&mut untouched, 1, 1, StaticLayerBackground::Opaque);
    assert_eq!(untouched, vec![0, 0, 0, 255]);
    let mut cleared = vec![5; 6];
    clear_alpha_buffer(&mut cleared, 1, 1);
    assert_eq!(cleared, vec![0, 0, 0, 0, 5, 5]);
}

#[test]
fn color_components_split_red_green_blue() {
    assert_eq!(color_components(0x2378B0), (0x23, 0x78, 0xB0));
    assert_eq!(color_components(0xFF00_0000), (0, 0, 0));
    assert_eq!(colorref(0x2378B0), 0xB07823);
    assert_eq!(color_to_argb(0x2378B0, 0x80), 0x802378B0);
    assert_eq!(color_to_argb(0xFF2378B0, 0xFF), 0xFF2378B0);
}

#[test]
fn layered_windows_sit_beside_their_owner_or_centered() {
    let work = PhysicalRect::new(0, 0, 1000, 800);
    let owner = PhysicalRect::new(100, 50, 400, 650);
    assert_eq!(
        layered_window_frame(work, 300, 500, 200, LayeredWindowPosition::AdjacentToOwner { gap: 8 }, owner),
        (408, 50, 300, 600)
    );
    let crowded = PhysicalRect::new(600, 50, 900, 650);
    assert_eq!(
        layered_window_frame(work, 300, 500, 200, LayeredWindowPosition::AdjacentToOwner { gap: 8 }, crowded),
        (292, 50, 300, 600)
    );
    assert_eq!(
        layered_window_frame(work, 300, 500, 200, LayeredWindowPosition::CenterScreen, owner),
        (350, 150, 300, 500)
    );
    assert_eq!(
        layered_window_frame(work, 2000, 5000, 100, LayeredWindowPosition::CenterScreen, owner),
        (0, 0, 1000, 800)
    );
}

#[test]
fn wheel_messages_unpack_to_scroll_lines() {
    assert_eq!(wheel_scroll_units(0), 0);
    assert_eq!(wheel_scroll_units(120), -1);
    assert_eq!(wheel_scroll_units(-360), 3);
    assert_eq!(wheel_scroll_units(30), -1);
    assert_eq!(wheel_delta(0xFF88_0000), -120);
    assert_eq!(wheel_delta(0x0078_0000), 120);
    assert_eq!(unpack_point(0x0020_FFF6), (-10, 32));
    assert_eq!(unpack_point(0x7FFF_0001), (1, 32767));
}

#[test]
fn semantic_ids_pair_both_ways() {
    let mut ids = SemanticIds::new();
    let first = ids.id_for("root");
    let second = ids.id_for("button");
    assert_eq!(first, 1);
    assert_eq!(second, 2);
    assert_eq!(ids.id_for("root"), 1);
    assert_eq!(ids.ui_for(2).as_deref(), Some("button"));
    assert_eq!(ids.ui_for(7), None);
}

#[test]
fn renderer_kind_defaults_to_skia_on_auto() {
    assert_eq!(RendererKind::default(), RendererKind::Skia(GraphicsPreference::Auto));
    assert_eq!(RendererKind::Skia(GraphicsPreference::Vulkan).as_str(), "skia");
    let error = RendererProbeError("no GPU".to_string());
    assert_eq!(error.message(), "no GPU");
}

#[test]
fn builtin_lucide_icons_follow_the_icon_set() {
    assert_eq!(
        builtin_svg("minus").unwrap(),
        "<svg xmlns=\"http://www.w3.org/2000/svg\" width=\"24\" height=\"24\" viewBox=\"0 0 24 24\" stroke-linecap=\"round\" stroke-linejoin=\"round\" stroke-width=\"2\" stroke=\"currentColor\" fill=\"none\" opacity=\"currentOpacity\"><path d=\"M5 12h14\" /></svg>"
    );
    assert!(builtin_svg("close").unwrap().ends_with("<path d=\"M18 6 6 18\" />\n<path d=\"m6 6 12 12\" /></svg>"));
    assert!(builtin_svg("unknown").is_none());
}

#[test]
fn surface_regions_are_clipped_to_the_surface() {
    assert_eq!(
        clipped_surface_region(PhysicalRect::new(-2, 1, 9, 3), 4, 2),
        Some(PhysicalRect::new(0, 1, 4, 2))
    );
    assert_eq!(clipped_surface_region(PhysicalRect::new(5, 0, 9, 3), 4, 2), None);

    let mut pixels = vec![0u8; 3 * 2 * 4];
    fill_surface_region(&mut pixels, 3, 2, PhysicalRect::new(1, 1, 5, 5), [1, 2, 3, 4]);
    for index in 0..6 {
        let expected = if index >= 4 { [1, 2, 3, 4] } else { [0, 0, 0, 0] };
        assert_eq!(pixel_of(&pixels, index), expected);
    }
    set_surface_alpha_region(&mut pixels, 3, 2, PhysicalRect::new(0, 0, 1, 2), 9);
    assert_eq!(pixel_of(&pixels, 0), [0, 0, 0, 9]);
    assert_eq!(pixel_of(&pixels, 3), [0, 0, 0, 9]);
    assert_eq!(pixel_of(&pixels, 4), [1, 2, 3, 4]);
}

#[test]
fn transparent_regions_are_recovered_from_black_and_white() {
    let black = vec![0, 0, 0, 255, 10, 20, 30, 255];
    let white = vec![255, 255, 255, 255, 10, 20, 30, 255];
    let mut output = vec![7u8; 8];
    synthesize_transparent_region(&mut output, &black, &white, 2, 1, PhysicalRect::new(0, 0, 2, 1));
    assert_eq!(output, vec![0, 0, 0, 0, 10, 20, 30, 255]);
    let mut partial = vec![7u8; 8];
    synthesize_transparent_region(&mut partial, &black, &white, 2, 1, PhysicalRect::new(1, 0, 2, 1));
    assert_eq!(partial, vec![7, 7, 7, 7, 10, 20, 30, 255]);
}

#[test]
fn skia_backends_report_their_name_and_kind() {
    let software = SkiaBackend::Software { fallback_reason: Some("no driver") };
    assert_eq!(software.name(), "skia-software");
    assert_eq!(software.fallback_reason(), Some("no driver"));
    assert!(!software.is_gpu());
    assert!(SkiaBackend::Vulkan.is_gpu());
    assert_eq!(SkiaBackend::Metal.name(), "skia-metal");
    assert_eq!(SkiaBackend::OpenGl.fallback_reason(), None);
    assert!(!SkiaBackend::Unavailable.is_gpu());
}

#[test]
fn text_runs_group_consecutive_characters_of_one_family() {
    let runs = gdi_text_runs("ab\u{6587}c", &[0, 0, 1, 0]);
    let parts: Vec<(usize, &str)> = runs.iter().map(|run| (run.family_index, run.text.as_str())).collect();
    assert_eq!(parts, vec![(0, "ab"), (1, "\u{6587}"), (0, "c")]);
    assert!(gdi_text_runs("", &[]).is_empty());
    let joined: String = runs.iter().map(|run| run.text.as_str()).collect();
    assert_eq!(joined, "ab\u{6587}c");
}

#[test]
fn dilation_never_lowers_a_sample() {
    let line = [3, 9, 1, 4, 4, 0, 7];
    let dilated = extrema_line(&line, 2, true);
    let eroded = extrema_line(&line, 2, false);
    for i in 0..line.len() {
        assert!(dilated[i] >= line[i]);
        assert!(eroded[i] <= line[i]);
    }
    assert_eq!(extrema_line(&line, 0, true), line.to_vec());
}
