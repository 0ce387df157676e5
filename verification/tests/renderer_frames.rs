use lgui::geometry::PhysicalRect;
use lgui::renderer::text_layout::{
    caret_queries, clusters_from_starts, grapheme_clusters, CaretQuery, GraphemeCluster, byte_range_to_char_range, char_byte_boundaries, char_utf16_boundaries,
    direction_from_first_paragraph, resolved_text_direction, utf16_range_to_char_range,
    TextDirection,
};
use lgui::renderer::{
    cpu_cache_budget, gpu_cache_budget, paint_scene_damage_clips, FrameInfo, FrameReason,
    MemoryPressure, RenderErrorStage, RenderStats, RendererCapabilities,
    StaticLayerMemoryCacheStats, DEFAULT_CACHE_BUDGET,
};
use lgui::runtime::invalidation::{InvalidationRequest, InvalidationSet};

#[test]
fn frame_stats_use_damage_or_the_full_viewport() {
    let viewport = PhysicalRect::new(0, 0, 100, 80);
    let damage = [
        PhysicalRect::new(0, 0, 10, 20),
        PhysicalRect::new(50, 40, 60, 50),
    ];
    let dirty = FrameInfo::new(viewport, &damage, 1.0_f32, FrameReason::SceneChange, false);
    let full = FrameInfo::new(viewport, &damage, 1.0_f32, FrameReason::Resize, true);

    assert_eq!(
        RenderStats::for_frame(&dirty),
        RenderStats {
            painted_rects: 2,
            painted_pixels: 300,
        }
    );
    assert_eq!(
        RenderStats::for_frame(&full),
        RenderStats {
            painted_rects: 1,
            painted_pixels: 8_000,
        }
    );
}

#[test]
fn frame_stats_count_inverted_rectangles_as_empty() {
    let viewport = PhysicalRect::new(0, 0, 10, 10);
    let damage = [PhysicalRect::new(10, 10, 0, 0), PhysicalRect::new(0, 0, 3, 3)];
    let frame = FrameInfo::new(viewport, &damage, (), FrameReason::Explicit, false);
    assert_eq!(RenderStats::for_frame(&frame).painted_pixels, 9);
    assert_eq!(frame.reason(), FrameReason::Explicit);
    assert_eq!(frame.damage().len(), 2);
    assert!(!frame.is_full_redraw());
    assert_eq!(frame.viewport(), viewport);
    let huge = [PhysicalRect::new(i32::MIN, i32::MIN, i32::MAX, i32::MAX); 5];
    let frame = FrameInfo::new(viewport, &huge, (), FrameReason::Recovery, false);
    assert_eq!(RenderStats::for_frame(&frame).painted_pixels, u64::MAX);
}

#[test]
fn renderer_names_and_defaults() {
    assert_eq!(RenderErrorStage::Present.as_str(), "present");
    assert_eq!(RenderErrorStage::Create.as_str(), "create");
    assert_eq!(FrameReason::default(), FrameReason::SceneChange);
    assert_eq!(
        RendererCapabilities::default(),
        RendererCapabilities { partial_redraw: false, retained_surface: false }
    );
    assert_eq!(StaticLayerMemoryCacheStats::default().entry_count, 0);
    assert_ne!(MemoryPressure::Moderate, MemoryPressure::Critical);
}

#[test]
fn invalidation_requests_drain_in_order() {
    let mut set: InvalidationSet<(i32, i32), u32> = InvalidationSet::new();
    assert!(set.is_empty());
    set.invalidate_rect((1, 2));
    set.invalidate_node(7);
    set.invalidate_animation(7, "opacity");
    set.invalidate_route();
    set.invalidate_all();
    assert!(!set.is_empty());
    let drained = set.drain();
    assert_eq!(
        drained,
        vec![
            InvalidationRequest::Rect((1, 2)),
            InvalidationRequest::Node(7),
            InvalidationRequest::Animation { id: 7, property: "opacity" },
            InvalidationRequest::Route,
            InvalidationRequest::All,
        ]
    );
    assert!(set.is_empty());
}

#[test]
fn text_boundaries_match_std_offsets() {
    for text in ["", "abc", "héllo", "文章", "a😀b"] {
        let mut bytes: Vec<usize> = text.char_indices().map(|(index, _)| index).collect();
        bytes.push(text.len());
        assert_eq!(char_byte_boundaries(text), bytes);
        let mut utf16 = vec![0];
        let mut offset = 0;
        for ch in text.chars() {
            offset += ch.len_utf16();
            utf16.push(offset);
        }
        assert_eq!(char_utf16_boundaries(text), utf16);
    }
    let boundaries = char_byte_boundaries("a😀b");
    assert_eq!(boundaries, vec![0, 1, 5, 6]);
    assert_eq!(byte_range_to_char_range(&boundaries, 1, 5), (1, 2));
    assert_eq!(byte_range_to_char_range(&boundaries, 0, 6), (0, 3));
    let utf16 = char_utf16_boundaries("a😀b");
    assert_eq!(utf16, vec![0, 1, 3, 4]);
    assert_eq!(utf16_range_to_char_range(&utf16, 1, 3), (1, 2));
}

#[test]
fn text_direction_follows_the_first_paragraph() {
    assert_eq!(resolved_text_direction("abc", TextDirection::Auto), TextDirection::LeftToRight);
    assert_eq!(resolved_text_direction("שלום", TextDirection::Auto), TextDirection::RightToLeft);
    assert_eq!(resolved_text_direction("", TextDirection::Auto), TextDirection::LeftToRight);
    assert_eq!(
        resolved_text_direction("שלום", TextDirection::LeftToRight),
        TextDirection::LeftToRight
    );
    assert_eq!(
        direction_from_first_paragraph(TextDirection::Auto, Some(true)),
        TextDirection::RightToLeft
    );
    assert_eq!(
        direction_from_first_paragraph(TextDirection::Auto, None),
        TextDirection::LeftToRight
    );
}

#[test]
fn damage_clips_are_the_viewport_or_the_damage() {
    let viewport = PhysicalRect::new(0, 0, 100, 80);
    let damage = [PhysicalRect::new(0, 0, 10, 20), PhysicalRect::new(50, 40, 60, 50)];
    let dirty = FrameInfo::new(viewport, &damage, 1u32, FrameReason::SceneChange, false);
    assert_eq!(paint_scene_damage_clips(&dirty), damage.to_vec());
    let full = FrameInfo::new(viewport, &damage, 1u32, FrameReason::Resize, true);
    assert_eq!(paint_scene_damage_clips(&full), vec![viewport]);
}

#[test]
fn cache_budgets_split_two_thirds_to_the_gpu() {
    assert_eq!(DEFAULT_CACHE_BUDGET, 96 * 1024 * 1024);
    assert_eq!(gpu_cache_budget(90), 60);
    assert_eq!(cpu_cache_budget(90), 30);
    assert_eq!(gpu_cache_budget(usize::MAX), usize::MAX / 3);
    assert_eq!(cpu_cache_budget(usize::MAX), usize::MAX - usize::MAX / 3);
}

#[test]
fn grapheme_clusters_keep_combining_sequences_together() {
    let clusters = grapheme_clusters("a\u{0301}b");
    assert_eq!(
        clusters,
        vec![
            GraphemeCluster { start: 0, end: 2, utf16_start: 0, utf16_end: 2 },
            GraphemeCluster { start: 2, end: 3, utf16_start: 2, utf16_end: 3 },
        ]
    );
    let emoji = grapheme_clusters("\u{1F44D}\u{1F3FD}!");
    assert_eq!(emoji[0], GraphemeCluster { start: 0, end: 2, utf16_start: 0, utf16_end: 4 });
    assert_eq!(emoji[1], GraphemeCluster { start: 2, end: 3, utf16_start: 4, utf16_end: 5 });
    assert!(grapheme_clusters("").is_empty());
}

#[test]
fn clusters_from_given_starts_run_to_the_next_start() {
    let clusters = clusters_from_starts("a\u{0301}b", &[0, 3]);
    assert_eq!(
        clusters,
        vec![
            GraphemeCluster { start: 0, end: 2, utf16_start: 0, utf16_end: 2 },
            GraphemeCluster { start: 2, end: 3, utf16_start: 2, utf16_end: 3 },
        ]
    );
    let whole = clusters_from_starts("\u{1F44D}x", &[0]);
    assert_eq!(whole, vec![GraphemeCluster { start: 0, end: 2, utf16_start: 0, utf16_end: 3 }]);
    assert!(clusters_from_starts("abc", &[]).is_empty());
}

#[test]
fn caret_queries_ask_for_both_edges_of_each_position() {
    let queries = caret_queries(&[0, 1, 3]);
    assert_eq!(
        queries,
        vec![
            CaretQuery { char_index: 0, downstream: true, start: 0, end: 1 },
            CaretQuery { char_index: 1, downstream: false, start: 0, end: 1 },
            CaretQuery { char_index: 1, downstream: true, start: 1, end: 3 },
            CaretQuery { char_index: 2, downstream: false, start: 1, end: 3 },
        ]
    );
    assert!(caret_queries(&[0]).is_empty());
}
