use lgui::platform::blur::box_blur_bgra;
use lgui::platform::static_layer::{
    clear_scroll_raster_memory_cache, clear_static_layer_memory_cache,
    static_layer_memory_cache_entry_ids_for_prefix, static_layer_memory_cache_stats,
    static_layer_memory_cache_stats_for_prefix, StaticLayerBitmap, StaticLayerMemoryCache,
};
use lgui::platform::svg::{
    builtin_svg, icon_svg, install_svg_font_registry, install_svg_icon_registry, opacity_text,
    resolve_svg, store_svg_raster, svg_raster_step, tint_svg, IconParts, SvgFontRegistry,
    SvgIconRegistry, SvgIconSource, SvgRasterStep, SvgState, ARROW_LEFT_SVG, COPY_SVG,
};

fn bitmap(bytes: usize) -> StaticLayerBitmap {
    StaticLayerBitmap { width: 1, height: 1, pixels: vec![7; bytes] }
}

#[test]
fn storing_never_evicts_the_new_entry() {
    let mut cache = StaticLayerMemoryCache::new();
    cache.store("page.a", "a".to_string(), bitmap(40), 50);
    cache.store("page.b", "b".to_string(), bitmap(40), 50);
    assert!(cache.bitmap("a").is_none());
    cache.store("page.c", "c".to_string(), bitmap(500), 50);
    assert_eq!(cache.bitmap("c").unwrap().pixels.len(), 500);
    assert!(cache.bitmap("b").is_none());
    let stats = static_layer_memory_cache_stats(&cache);
    assert_eq!((stats.entry_count, stats.bytes, stats.budget_bytes), (1, 500, 500));
}

#[test]
fn prefix_ids_come_back_sorted_with_repeats() {
    let mut cache = StaticLayerMemoryCache::new();
    cache.store("p.z", "k1".to_string(), bitmap(1), 100);
    cache.store("p.a", "k2".to_string(), bitmap(1), 100);
    cache.store("p.z", "k3".to_string(), bitmap(1), 100);
    cache.store("q.b", "k4".to_string(), bitmap(1), 100);
    cache.store("p.\u{e9}", "k5".to_string(), bitmap(1), 100);
    assert_eq!(
        static_layer_memory_cache_entry_ids_for_prefix(&cache, "p."),
        vec!["p.a".to_string(), "p.z".to_string(), "p.z".to_string(), "p.\u{e9}".to_string()]
    );
}

#[test]
fn static_layer_cache_evicts_least_recently_used_first() {
    let mut cache = StaticLayerMemoryCache::new();
    cache.store("page.a", "a".to_string(), bitmap(40), 100);
    cache.store("page.b", "b".to_string(), bitmap(40), 100);
    assert!(cache.touch("a"));
    assert!(!cache.touch("missing"));
    cache.store("other.c", "c".to_string(), bitmap(40), 100);
    let stats = static_layer_memory_cache_stats(&cache);
    assert_eq!(stats.entry_count, 2);
    assert_eq!(stats.bytes, 80);
    assert_eq!(stats.budget_bytes, 100);
    assert_eq!(stats.hits, 1);
    assert_eq!(stats.misses, 1);
    assert_eq!(stats.stores, 3);
    assert_eq!(stats.evictions, 1);
    assert!(cache.bitmap("b").is_none());
    assert_eq!(cache.bitmap("a").unwrap().pixels.len(), 40);
    assert_eq!(static_layer_memory_cache_entry_ids_for_prefix(&cache, "page"), vec!["page.a".to_string()]);
    let prefix = static_layer_memory_cache_stats_for_prefix(&cache, "other");
    assert_eq!((prefix.entry_count, prefix.bytes), (1, 40));
}

#[test]
fn static_layer_cache_keeps_one_oversized_entry_and_replaces_keys() {
    let mut cache = StaticLayerMemoryCache::new();
    cache.store("x", "k".to_string(), bitmap(10), 5);
    assert_eq!(cache.stats().budget_bytes, 10);
    cache.store("y", "k".to_string(), bitmap(30), 5);
    let stats = cache.stats();
    assert_eq!((stats.entry_count, stats.bytes, stats.evictions), (1, 30, 0));
    assert_eq!(static_layer_memory_cache_entry_ids_for_prefix(&cache, ""), vec!["y".to_string()]);
    clear_static_layer_memory_cache(&mut cache);
    assert_eq!(cache.stats(), StaticLayerMemoryCache::new().stats());
}

#[test]
fn scroll_raster_tiles_are_dropped_with_their_bytes() {
    let mut cache = StaticLayerMemoryCache::new();
    cache.store("list.raster.tile.0", "t0".to_string(), bitmap(10), 1000);
    cache.store("list.body", "b".to_string(), bitmap(20), 1000);
    cache.store("list.raster.tile.1", "t1".to_string(), bitmap(30), 1000);
    clear_scroll_raster_memory_cache(&mut cache);
    let stats = cache.stats();
    assert_eq!((stats.entry_count, stats.bytes), (1, 20));
    assert_eq!(
        static_layer_memory_cache_entry_ids_for_prefix(&cache, "list"),
        vec!["list.body".to_string()]
    );
}

#[test]
fn prefix_ids_come_out_sorted() {
    let mut cache = StaticLayerMemoryCache::new();
    for (id, key) in [("p.c", "1"), ("p.a", "2"), ("q", "3"), ("p.b", "4"), ("p.a", "5")] {
        cache.store(id, key.to_string(), bitmap(1), 1000);
    }
    assert_eq!(
        static_layer_memory_cache_entry_ids_for_prefix(&cache, "p."),
        vec!["p.a", "p.a", "p.b", "p.c"]
    );
}

fn reference_blur(pixels: &[u8], width: usize, height: usize, radius: usize) -> Vec<u8> {
    let mut horizontal = pixels.to_vec();
    for y in 0..height {
        for x in 0..width {
            let lo = x.saturating_sub(radius);
            let hi = (x + radius).min(width - 1);
            for c in 0..4 {
                let sum: u32 = (lo..=hi).map(|k| pixels[(y * width + k) * 4 + c] as u32).sum();
                horizontal[(y * width + x) * 4 + c] = (sum / (hi - lo + 1) as u32) as u8;
            }
        }
    }
    let mut out = pixels.to_vec();
    for y in 0..height {
        for x in 0..width {
            let lo = y.saturating_sub(radius);
            let hi = (y + radius).min(height - 1);
            for c in 0..4 {
                let sum: u32 = (lo..=hi).map(|k| horizontal[(k * width + x) * 4 + c] as u32).sum();
                out[(y * width + x) * 4 + c] = (sum / (hi - lo + 1) as u32) as u8;
            }
        }
    }
    out
}

#[test]
fn box_blur_averages_rows_then_columns() {
    let width = 5;
    let height = 4;
    let mut pixels: Vec<u8> = (0..(width * height * 4) as u32).map(|v| (v * 37 % 256) as u8).collect();
    pixels.push(99);
    for radius in [1, 2, 7] {
        let mut blurred = pixels.clone();
        box_blur_bgra(&mut blurred, width, height, radius);
        let mut expected = reference_blur(&pixels[..width * height * 4], width, height, radius);
        expected.push(99);
        assert_eq!(blurred, expected);
    }
    let mut unchanged = pixels.clone();
    box_blur_bgra(&mut unchanged, width, height, 0);
    assert_eq!(unchanged, pixels);
    let mut flat = vec![200u8; 3 * 3 * 4];
    box_blur_bgra(&mut flat, 3, 3, 1);
    assert!(flat.iter().all(|&v| v == 200));
}

#[test]
fn svg_tint_fills_color_and_opacity() {
    let tinted = tint_svg("<path stroke=\"currentColor\" opacity=\"currentOpacity\"/>", 0x3366cc, 128);
    assert_eq!(tinted, "<path stroke=\"#3366CC\" opacity=\"0.502\"/>");
    assert_eq!(tint_svg("currentColorcurrentColor", 0xab, 255), "#0000AB#0000AB");
    for alpha in 0..=255u8 {
        let text: String = opacity_text(alpha).into_iter().collect();
        assert_eq!(text, format!("{:.3}", alpha as f32 / 255.0));
    }
}

#[test]
fn svg_icons_resolve_from_registry_then_builtins() {
    assert_eq!(builtin_svg("copy").as_deref(), Some(COPY_SVG));
    assert_eq!(builtin_svg("arrow-left").as_deref(), Some(ARROW_LEFT_SVG));
    assert!(builtin_svg("close").unwrap().starts_with("<svg xmlns=\"http://www.w3.org/2000/svg\""));
    assert!(builtin_svg("minus").unwrap().ends_with("</svg>"));
    assert!(builtin_svg("unknown").is_none());

    let mut state = SvgState::new();
    assert!(resolve_svg(&state, "star").is_none());
    let registry = SvgIconRegistry::new()
        .with_icon_text("star", "<svg>first</svg>")
        .with_icon_bytes("bad", &[0xff, 0xfe])
        .with_icon("star", SvgIconSource::Text("<svg>second</svg>"));
    assert!(install_svg_icon_registry(&mut state, registry));
    assert!(!install_svg_icon_registry(&mut state, SvgIconRegistry::new()));
    assert_eq!(resolve_svg(&state, "star").as_deref(), Some("<svg>second</svg>"));
    assert!(resolve_svg(&state, "bad").is_none());
    assert_eq!(resolve_svg(&state, "copy").as_deref(), Some(COPY_SVG));
    assert!(install_svg_font_registry(&mut state, SvgFontRegistry::new().with_font_bytes(&[1, 2])));
    assert!(!install_svg_font_registry(&mut state, SvgFontRegistry::new()));
}

#[test]
fn first_font_registry_stays_installed() {
    let mut state = SvgState::new();
    assert!(state.font_registry().is_none());
    let first: &'static [u8] = &[1, 2, 3];
    let second: &'static [u8] = &[9];
    assert!(install_svg_font_registry(&mut state, SvgFontRegistry::new().with_font_bytes(first)));
    assert!(!install_svg_font_registry(&mut state, SvgFontRegistry::new().with_font_bytes(second)));
    let installed = state.font_registry().expect("the first registry is installed");
    assert_eq!(installed.fonts().len(), 1);
    assert_eq!(installed.fonts()[0], first);
}

#[test]
fn svg_raster_steps_render_once_then_hit_the_cache() {
    let mut state = SvgState::new();
    match svg_raster_step(&state, "copy", 0, 16, 0xffffff, 255) {
        SvgRasterStep::Render { svg, width, height } => {
            assert_eq!((width, height), (1, 16));
            assert!(svg.contains("#FFFFFF"));
            assert!(svg.contains("opacity=\"1.000\""));
        }
        _ => panic!("a built-in icon renders"),
    }
    let bitmap = store_svg_raster(&mut state, "copy", 1, 16, 0xffffff, 255, &[10, 20, 30, 255]);
    assert_eq!(bitmap.premultiplied_bgra, vec![30, 20, 10, 255]);
    match svg_raster_step(&state, "copy", 1, 16, 0xffffff, 255) {
        SvgRasterStep::Cached { width, height, premultiplied_bgra } => {
            assert_eq!((width, height), (1, 16));
            assert_eq!(premultiplied_bgra, vec![30, 20, 10, 255]);
        }
        _ => panic!("a stored icon is cached"),
    }
    assert!(matches!(svg_raster_step(&state, "nothing", 1, 1, 0, 0), SvgRasterStep::Missing));
}

#[test]
fn icon_parts_become_svg_attributes() {
    let icon = IconParts {
        style: None,
        x: None,
        y: None,
        width: Some("1em"),
        height: None,
        view_box: Some("0 0 24 24"),
        stroke_linecap: None,
        stroke_linejoin: None,
        stroke_width: None,
        stroke: Some("currentColor"),
        fill: None,
        data: "<path d=\"M1 1\"/>",
    };
    assert_eq!(
        icon_svg(&icon),
        "<svg xmlns=\"http://www.w3.org/2000/svg\" width=\"1em\" viewBox=\"0 0 24 24\" stroke=\"currentColor\" opacity=\"currentOpacity\"><path d=\"M1 1\"/></svg>"
    );
}
