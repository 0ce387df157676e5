use vstd::prelude::*;

pub mod shadow;
pub mod text_layout;

use crate::geometry::{min_int, rect_area, saturating_mul_usize, PhysicalRect};
use crate::platform::winit::GraphicsPreference;

verus! {

/// Counters of the static layer memory cache.
#[derive(Clone, Copy, Debug, PartialEq, Eq, Structural)]
pub struct StaticLayerMemoryCacheStats {
    pub entry_count: usize,
    pub bytes: usize,
    pub budget_bytes: usize,
    pub hits: u64,
    pub misses: u64,
    pub stores: u64,
    pub evictions: u64,
}

impl Default for StaticLayerMemoryCacheStats {
    fn default() -> (r: Self)
        ensures
            r == (StaticLayerMemoryCacheStats {
                entry_count: 0,
                bytes: 0,
                budget_bytes: 0,
                hits: 0,
                misses: 0,
                stores: 0,
                evictions: 0,
            }),
    {
        StaticLayerMemoryCacheStats {
            entry_count: 0,
            bytes: 0,
            budget_bytes: 0,
            hits: 0,
            misses: 0,
            stores: 0,
            evictions: 0,
        }
    }
}

/// The entries of the static layer memory cache whose id starts with a prefix.
#[derive(Clone, Copy, Debug, PartialEq, Eq, Structural)]
pub struct StaticLayerMemoryCachePrefixStats {
    pub entry_count: usize,
    pub bytes: usize,
}

impl Default for StaticLayerMemoryCachePrefixStats {
    fn default() -> (r: Self)
        ensures
            r == (StaticLayerMemoryCachePrefixStats { entry_count: 0, bytes: 0 }),
    {
        StaticLayerMemoryCachePrefixStats { entry_count: 0, bytes: 0 }
    }
}

/// The stage of a frame at which rendering failed.
#[derive(Clone, Copy, Debug, PartialEq, Eq, Structural)]
pub enum RenderErrorStage {
    Create,
    Prepare,
    Draw,
    Copy,
    Present,
    Commit,
}

impl RenderErrorStage {
    /// The lower-case name of the stage.
    pub fn as_str(self) -> (r: &'static str)
        ensures
            r@ == match self {
                RenderErrorStage::Create => "create"@,
                RenderErrorStage::Prepare => "prepare"@,
                RenderErrorStage::Draw => "draw"@,
                RenderErrorStage::Copy => "copy"@,
                RenderErrorStage::Present => "present"@,
                RenderErrorStage::Commit => "commit"@,
            },
    {
        match self {
            RenderErrorStage::Create => "create",
            RenderErrorStage::Prepare => "prepare",
            RenderErrorStage::Draw => "draw",
            RenderErrorStage::Copy => "copy",
            RenderErrorStage::Present => "present",
            RenderErrorStage::Commit => "commit",
        }
    }
}

/// Why a frame is drawn.
#[derive(Clone, Copy, Debug, PartialEq, Eq, Structural)]
pub enum FrameReason {
    SceneChange,
    PlatformExposure,
    Resize,
    Recovery,
    Explicit,
}

impl Default for FrameReason {
    fn default() -> (r: Self)
        ensures
            r == FrameReason::SceneChange,
    {
        FrameReason::SceneChange
    }
}

/// What a renderer can do between frames.
#[derive(Clone, Copy, Debug, PartialEq, Eq, Structural)]
pub struct RendererCapabilities {
    pub partial_redraw: bool,
    pub retained_surface: bool,
}

impl Default for RendererCapabilities {
    fn default() -> (r: Self)
        ensures
            r == (RendererCapabilities { partial_redraw: false, retained_surface: false }),
    {
        RendererCapabilities { partial_redraw: false, retained_surface: false }
    }
}

/// How urgently a renderer should release memory.
#[derive(Clone, Copy, Debug, PartialEq, Eq, Structural)]
pub enum MemoryPressure {
    Moderate,
    Critical,
}

/// What one frame covers: the viewport, the damaged rectangles, the scale the scene
/// was laid out at, and whether everything must be redrawn.
#[derive(Clone, Copy, Debug)]
pub struct FrameInfo<'a, S> {
    viewport: PhysicalRect,
    damage: &'a [PhysicalRect],
    scale: S,
    reason: FrameReason,
    full_redraw: bool,
}

impl<'a, S: Copy> FrameInfo<'a, S> {
    pub closed spec fn spec_viewport(self) -> PhysicalRect {
        self.viewport
    }

    pub closed spec fn spec_damage(self) -> Seq<PhysicalRect> {
        self.damage@
    }

    pub closed spec fn spec_scale(self) -> S {
        self.scale
    }

    pub closed spec fn spec_reason(self) -> FrameReason {
        self.reason
    }

    pub closed spec fn spec_full_redraw(self) -> bool {
        self.full_redraw
    }

    /// The rectangles a frame paints: the viewport on a full redraw, else the damage.
    pub open spec fn painted(self) -> Seq<PhysicalRect> {
        if self.spec_full_redraw() {
            seq![self.spec_viewport()]
        } else {
            self.spec_damage()
        }
    }

    pub fn new(
        viewport: PhysicalRect,
        damage: &'a [PhysicalRect],
        scale: S,
        reason: FrameReason,
        full_redraw: bool,
    ) -> (r: Self)
        ensures
            r.spec_viewport() == viewport,
            r.spec_damage() == damage@,
            r.spec_scale() == scale,
            r.spec_reason() == reason,
            r.spec_full_redraw() == full_redraw,
    {
        FrameInfo { viewport, damage, scale, reason, full_redraw }
    }

    pub fn viewport(&self) -> (r: PhysicalRect)
        ensures
            r == self.spec_viewport(),
    {
        self.viewport
    }

    pub fn damage(&self) -> (r: &'a [PhysicalRect])
        ensures
            r@ == self.spec_damage(),
    {
        self.damage
    }

    pub fn scale(&self) -> (r: S)
        ensures
            r == self.spec_scale(),
    {
        self.scale
    }

    pub fn reason(&self) -> (r: FrameReason)
        ensures
            r == self.spec_reason(),
    {
        self.reason
    }

    pub fn is_full_redraw(&self) -> (r: bool)
        ensures
            r == self.spec_full_redraw(),
    {
        self.full_redraw
    }
}

/// The pixels covered by `rects`, each counted once per rectangle.
pub open spec fn total_area(rects: Seq<PhysicalRect>) -> int
    decreases rects.len(),
{
    if rects.len() == 0 {
        0
    } else {
        total_area(rects.drop_last()) + rect_area(rects.last())
    }
}

/// What a frame painted.
#[derive(Clone, Copy, Debug, PartialEq, Eq, Structural)]
pub struct RenderStats {
    pub painted_rects: usize,
    pub painted_pixels: u64,
}

proof fn lemma_total_area_nonneg(rects: Seq<PhysicalRect>)
    ensures
        0 <= total_area(rects),
    decreases rects.len(),
{
    if rects.len() > 0 {
        lemma_total_area_nonneg(rects.drop_last());
        assert(0 <= rect_area(rects.last())) by (nonlinear_arith);
    }
}

/// The saturated pixel count of `rects`: each rectangle's area added in turn, stopping
/// at `u64::MAX`.
fn saturated_area(rects: &[PhysicalRect]) -> (r: u64)
    ensures
        r == min_int(total_area(rects@), u64::MAX as int),
{
    let mut total: u64 = 0;
    let mut i: usize = 0;
    while i < rects.len()
        invariant
            i <= rects@.len(),
            total == min_int(total_area(rects@.take(i as int)), u64::MAX as int),
        decreases rects@.len() - i,
    {
        let a = rects[i].area();
        proof {
            assert(rects@.take(i + 1).drop_last() =~= rects@.take(i as int));
            lemma_total_area_nonneg(rects@.take(i as int));
        }
        total = total.saturating_add(a);
        i = i + 1;
    }
    assert(rects@.take(i as int) =~= rects@);
    total
}

/// The clips a frame repaints one after the other: the viewport on a full redraw, else
/// each damaged rectangle.
pub fn paint_scene_damage_clips<S: Copy>(frame: &FrameInfo<'_, S>) -> (r: Vec<PhysicalRect>)
    ensures
        r@ == frame.painted(),
{
    let mut clips: Vec<PhysicalRect> = Vec::new();
    if frame.is_full_redraw() {
        clips.push(frame.viewport());
        assert(clips@ =~= seq![frame.spec_viewport()]);
    } else {
        let damage = frame.damage();
        let mut i: usize = 0;
        while i < damage.len()
            invariant
                i <= damage@.len(),
                clips@ == damage@.take(i as int),
            decreases damage@.len() - i,
        {
            clips.push(damage[i]);
            i = i + 1;
            assert(clips@ =~= damage@.take(i as int));
        }
        assert(damage@.take(i as int) =~= damage@);
    }
    clips
}

/// The cache budget a renderer starts with: 96 MiB.
pub const DEFAULT_CACHE_BUDGET: usize = 100663296;

/// The share of a cache budget a GPU renderer gives its GPU resources: two thirds, the
/// doubling saturating.
pub fn gpu_cache_budget(total: usize) -> (r: usize)
    ensures
        r == gpu_cache_budget_of(total),
{
    saturating_mul_usize(total, 2) / 3
}

/// The share of a cache budget left to CPU-side caches once the GPU has its share.
pub fn cpu_cache_budget(total: usize) -> (r: usize)
    ensures
        r == total - gpu_cache_budget_of(total),
        r + gpu_cache_budget_of(total) == total,
{
    let gpu = gpu_cache_budget(total);
    total.saturating_sub(gpu)
}

/// The GPU share of `total`.
pub open spec fn gpu_cache_budget_of(total: usize) -> int {
    min_int(total * 2, usize::MAX as int) / 3
}

impl RenderStats {
    /// Painted rectangles and pixels of a frame: the viewport on a full redraw, else the
    /// damage, with the pixel count saturating at `u64::MAX`.
    pub fn for_frame<S: Copy>(frame: &FrameInfo<'_, S>) -> (r: RenderStats)
        ensures
            r.painted_rects == frame.painted().len(),
            r.painted_pixels == min_int(total_area(frame.painted()), u64::MAX as int),
    {
        if frame.is_full_redraw() {
            let viewport = [frame.viewport()];
            let pixels = saturated_area(&viewport);
            assert(viewport@ =~= seq![frame.spec_viewport()]);
            RenderStats { painted_rects: 1, painted_pixels: pixels }
        } else {
            let damage = frame.damage();
            RenderStats { painted_rects: damage.len(), painted_pixels: saturated_area(damage) }
        }
    }
}


/// The renderer an application draws with.
#[derive(Clone, Copy, Debug, PartialEq, Eq, Structural)]
pub enum RendererKind {
    /// Skia, on the graphics driver the preference picks.
    Skia(GraphicsPreference),
}

impl Default for RendererKind {
    fn default() -> (r: Self)
        ensures
            r == RendererKind::Skia(GraphicsPreference::Auto),
    {
        RendererKind::Skia(GraphicsPreference::Auto)
    }
}

impl RendererKind {
    /// The lower-case name of the renderer.
    pub fn as_str(self) -> (r: &'static str)
        ensures
            r@ == match self {
                RendererKind::Skia(_) => "skia"@,
            },
    {
        match self {
            RendererKind::Skia(_) => "skia",
        }
    }
}

/// Why a renderer cannot run here, as its probe reported it.
#[derive(Clone, Debug, PartialEq, Eq)]
pub struct RendererProbeError(pub String);

impl RendererProbeError {
    pub fn message(&self) -> (r: &str)
        ensures
            r@ == self.0@,
    {
        self.0.as_str()
    }
}

} // verus!
