use vstd::prelude::*;

verus! {

/// Blits of one frame from one kind of source.
#[derive(Clone, Copy, Debug, PartialEq, Eq, Structural)]
pub struct GdiFrameBlitSourceMetrics {
    pub blit_count: usize,
    pub bitblt_count: usize,
    pub alphablend_count: usize,
    pub fallback_count: usize,
    pub pixels: u64,
}

/// Blits of one frame, in total and by source.
#[derive(Clone, Copy, Debug, PartialEq, Eq, Structural)]
pub struct GdiFrameBlitMetrics {
    pub blit_count: usize,
    pub bitblt_count: usize,
    pub alphablend_count: usize,
    pub fallback_count: usize,
    pub blit_pixels: u64,
    pub static_layer: GdiFrameBlitSourceMetrics,
    pub overlay: GdiFrameBlitSourceMetrics,
    pub backdrop: GdiFrameBlitSourceMetrics,
    pub custom: GdiFrameBlitSourceMetrics,
    pub other: GdiFrameBlitSourceMetrics,
}

/// How a bitmap was copied to the window.
#[derive(Clone, Copy, Debug, PartialEq, Eq, Structural)]
pub enum GdiFrameBlitKind {
    BitBlt,
    AlphaBlend,
    /// An alpha blend done by hand after the native one failed.
    FallbackAlphaBlend,
}

/// What a blitted bitmap held.
#[derive(Clone, Copy, Debug, PartialEq, Eq, Structural)]
pub enum GdiFrameBlitSource {
    StaticLayer,
    Overlay,
    Backdrop,
    Custom,
    Other,
}

pub open spec fn plus_one(v: usize) -> usize {
    if v == usize::MAX {
        usize::MAX
    } else {
        (v + 1) as usize
    }
}

pub open spec fn plus_pixels(v: u64, pixels: u64) -> u64 {
    if v + pixels > u64::MAX {
        u64::MAX
    } else {
        (v + pixels) as u64
    }
}

pub open spec fn source_zero() -> GdiFrameBlitSourceMetrics {
    GdiFrameBlitSourceMetrics {
        blit_count: 0,
        bitblt_count: 0,
        alphablend_count: 0,
        fallback_count: 0,
        pixels: 0,
    }
}

pub open spec fn metrics_zero() -> GdiFrameBlitMetrics {
    GdiFrameBlitMetrics {
        blit_count: 0,
        bitblt_count: 0,
        alphablend_count: 0,
        fallback_count: 0,
        blit_pixels: 0,
        static_layer: source_zero(),
        overlay: source_zero(),
        backdrop: source_zero(),
        custom: source_zero(),
        other: source_zero(),
    }
}

/// The counters of one source after one more blit.
pub open spec fn source_recorded(m: GdiFrameBlitSourceMetrics, kind: GdiFrameBlitKind, pixels: u64) -> GdiFrameBlitSourceMetrics {
    GdiFrameBlitSourceMetrics {
        blit_count: plus_one(m.blit_count),
        bitblt_count: if kind is BitBlt {
            plus_one(m.bitblt_count)
        } else {
            m.bitblt_count
        },
        alphablend_count: if kind is BitBlt {
            m.alphablend_count
        } else {
            plus_one(m.alphablend_count)
        },
        fallback_count: if kind is FallbackAlphaBlend {
            plus_one(m.fallback_count)
        } else {
            m.fallback_count
        },
        pixels: plus_pixels(m.pixels, pixels),
    }
}

/// The frame counters after one more blit of `pixels` pixels; every counter saturates.
pub open spec fn recorded(m: GdiFrameBlitMetrics, source: GdiFrameBlitSource, kind: GdiFrameBlitKind, pixels: u64) -> GdiFrameBlitMetrics {
    GdiFrameBlitMetrics {
        blit_count: plus_one(m.blit_count),
        bitblt_count: if kind is BitBlt {
            plus_one(m.bitblt_count)
        } else {
            m.bitblt_count
        },
        alphablend_count: if kind is BitBlt {
            m.alphablend_count
        } else {
            plus_one(m.alphablend_count)
        },
        fallback_count: if kind is FallbackAlphaBlend {
            plus_one(m.fallback_count)
        } else {
            m.fallback_count
        },
        blit_pixels: plus_pixels(m.blit_pixels, pixels),
        static_layer: if source is StaticLayer {
            source_recorded(m.static_layer, kind, pixels)
        } else {
            m.static_layer
        },
        overlay: if source is Overlay {
            source_recorded(m.overlay, kind, pixels)
        } else {
            m.overlay
        },
        backdrop: if source is Backdrop {
            source_recorded(m.backdrop, kind, pixels)
        } else {
            m.backdrop
        },
        custom: if source is Custom {
            source_recorded(m.custom, kind, pixels)
        } else {
            m.custom
        },
        other: if source is Other {
            source_recorded(m.other, kind, pixels)
        } else {
            m.other
        },
    }
}

impl GdiFrameBlitSourceMetrics {
    pub fn new() -> (r: Self)
        ensures
            r == source_zero(),
    {
        GdiFrameBlitSourceMetrics {
            blit_count: 0,
            bitblt_count: 0,
            alphablend_count: 0,
            fallback_count: 0,
            pixels: 0,
        }
    }

    fn record(&mut self, kind: GdiFrameBlitKind, pixels: u64)
        ensures
            *final(self) == source_recorded(*old(self), kind, pixels),
    {
        self.blit_count = self.blit_count.saturating_add(1);
        self.pixels = self.pixels.saturating_add(pixels);
        match kind {
            GdiFrameBlitKind::BitBlt => {
                self.bitblt_count = self.bitblt_count.saturating_add(1);
            },
            GdiFrameBlitKind::AlphaBlend => {
                self.alphablend_count = self.alphablend_count.saturating_add(1);
            },
            GdiFrameBlitKind::FallbackAlphaBlend => {
                self.alphablend_count = self.alphablend_count.saturating_add(1);
                self.fallback_count = self.fallback_count.saturating_add(1);
            },
        }
    }
}

impl GdiFrameBlitMetrics {
    pub fn new() -> (r: Self)
        ensures
            r == metrics_zero(),
    {
        GdiFrameBlitMetrics {
            blit_count: 0,
            bitblt_count: 0,
            alphablend_count: 0,
            fallback_count: 0,
            blit_pixels: 0,
            static_layer: GdiFrameBlitSourceMetrics::new(),
            overlay: GdiFrameBlitSourceMetrics::new(),
            backdrop: GdiFrameBlitSourceMetrics::new(),
            custom: GdiFrameBlitSourceMetrics::new(),
            other: GdiFrameBlitSourceMetrics::new(),
        }
    }
}

/// Counts one blit of `pixels` pixels from `source`.
pub fn record_gdi_frame_blit(
    metrics: &mut GdiFrameBlitMetrics,
    source: GdiFrameBlitSource,
    kind: GdiFrameBlitKind,
    pixels: u64,
)
    ensures
        *final(metrics) == recorded(*old(metrics), source, kind, pixels),
{
    metrics.blit_count = metrics.blit_count.saturating_add(1);
    metrics.blit_pixels = metrics.blit_pixels.saturating_add(pixels);
    match source {
        GdiFrameBlitSource::StaticLayer => metrics.static_layer.record(kind, pixels),
        GdiFrameBlitSource::Overlay => metrics.overlay.record(kind, pixels),
        GdiFrameBlitSource::Backdrop => metrics.backdrop.record(kind, pixels),
        GdiFrameBlitSource::Custom => metrics.custom.record(kind, pixels),
        GdiFrameBlitSource::Other => metrics.other.record(kind, pixels),
    }
    match kind {
        GdiFrameBlitKind::BitBlt => {
            metrics.bitblt_count = metrics.bitblt_count.saturating_add(1);
        },
        GdiFrameBlitKind::AlphaBlend => {
            metrics.alphablend_count = metrics.alphablend_count.saturating_add(1);
        },
        GdiFrameBlitKind::FallbackAlphaBlend => {
            metrics.alphablend_count = metrics.alphablend_count.saturating_add(1);
            metrics.fallback_count = metrics.fallback_count.saturating_add(1);
        },
    }
}

/// Starts a new frame's counters.
pub fn reset_gdi_frame_blit_metrics(metrics: &mut GdiFrameBlitMetrics)
    ensures
        *final(metrics) == metrics_zero(),
{
    *metrics = GdiFrameBlitMetrics::new();
}

/// The counters so far, leaving them reset.
pub fn take_gdi_frame_blit_metrics(metrics: &mut GdiFrameBlitMetrics) -> (r: GdiFrameBlitMetrics)
    ensures
        r == *old(metrics),
        *final(metrics) == metrics_zero(),
{
    let snapshot = *metrics;
    *metrics = GdiFrameBlitMetrics::new();
    snapshot
}

/// The per-source counters add up to the frame totals whenever no counter saturated.
pub open spec fn sources_add_up(m: GdiFrameBlitMetrics) -> bool {
    &&& m.blit_count == m.static_layer.blit_count + m.overlay.blit_count + m.backdrop.blit_count
        + m.custom.blit_count + m.other.blit_count
    &&& m.bitblt_count == m.static_layer.bitblt_count + m.overlay.bitblt_count
        + m.backdrop.bitblt_count + m.custom.bitblt_count + m.other.bitblt_count
    &&& m.alphablend_count == m.static_layer.alphablend_count + m.overlay.alphablend_count
        + m.backdrop.alphablend_count + m.custom.alphablend_count + m.other.alphablend_count
    &&& m.fallback_count == m.static_layer.fallback_count + m.overlay.fallback_count
        + m.backdrop.fallback_count + m.custom.fallback_count + m.other.fallback_count
    &&& m.blit_pixels == m.static_layer.pixels + m.overlay.pixels + m.backdrop.pixels
        + m.custom.pixels + m.other.pixels
}

/// Recording a blit keeps the totals equal to the sum over sources, as long as the totals
/// stay below their limits.
pub proof fn law_blit_totals_add_up(m: GdiFrameBlitMetrics, source: GdiFrameBlitSource, kind: GdiFrameBlitKind, pixels: u64)
    requires
        sources_add_up(m),
        m.blit_count < usize::MAX,
        m.bitblt_count < usize::MAX,
        m.alphablend_count < usize::MAX,
        m.fallback_count < usize::MAX,
        m.blit_pixels + pixels <= u64::MAX,
    ensures
        sources_add_up(recorded(m, source, kind, pixels)),
{
}

/// Each blit is a BitBlt or an alpha blend, and a fallback is an alpha blend.
pub open spec fn source_kinds_add_up(m: GdiFrameBlitSourceMetrics) -> bool {
    m.blit_count == m.bitblt_count + m.alphablend_count && m.fallback_count <= m.alphablend_count
}

/// The totals, and the counters of each source, split into BitBlts and alpha blends, with
/// the fallbacks among the alpha blends.
pub open spec fn kinds_add_up(m: GdiFrameBlitMetrics) -> bool {
    &&& m.blit_count == m.bitblt_count + m.alphablend_count
    &&& m.fallback_count <= m.alphablend_count
    &&& source_kinds_add_up(m.static_layer)
    &&& source_kinds_add_up(m.overlay)
    &&& source_kinds_add_up(m.backdrop)
    &&& source_kinds_add_up(m.custom)
    &&& source_kinds_add_up(m.other)
}

/// The counters of one source of the frame.
pub open spec fn source_metrics(m: GdiFrameBlitMetrics, source: GdiFrameBlitSource) -> GdiFrameBlitSourceMetrics {
    match source {
        GdiFrameBlitSource::StaticLayer => m.static_layer,
        GdiFrameBlitSource::Overlay => m.overlay,
        GdiFrameBlitSource::Backdrop => m.backdrop,
        GdiFrameBlitSource::Custom => m.custom,
        GdiFrameBlitSource::Other => m.other,
    }
}

/// Fresh counters add up, by source and by kind.
pub proof fn law_fresh_counters_add_up()
    ensures
        sources_add_up(metrics_zero()),
        kinds_add_up(metrics_zero()),
{
}

/// Recording a blit keeps every blit counted as a BitBlt or an alpha blend, and no more
/// fallbacks than alpha blends, in the totals and in each source, as long as the blit
/// counters of the frame and of the source stay below their limit.
pub proof fn law_blit_kinds_add_up(m: GdiFrameBlitMetrics, source: GdiFrameBlitSource, kind: GdiFrameBlitKind, pixels: u64)
    requires
        kinds_add_up(m),
        m.blit_count < usize::MAX,
        source_metrics(m, source).blit_count < usize::MAX,
    ensures
        kinds_add_up(recorded(m, source, kind, pixels)),
{
}

/// The counters after recording each of `blits` (source, kind, pixels), in order.
pub open spec fn recorded_all(m: GdiFrameBlitMetrics, blits: Seq<(GdiFrameBlitSource, GdiFrameBlitKind, u64)>) -> GdiFrameBlitMetrics
    decreases blits.len(),
{
    if blits.len() == 0 {
        m
    } else {
        let last = blits.last();
        recorded(recorded_all(m, blits.drop_last()), last.0, last.1, last.2)
    }
}

/// The blits of the frame counted over its sources.
pub open spec fn source_blits(m: GdiFrameBlitMetrics) -> int {
    m.static_layer.blit_count + m.overlay.blit_count + m.backdrop.blit_count + m.custom.blit_count
        + m.other.blit_count
}

/// The counters taken after a run of blits recorded since the last reset or take: one blit
/// counted for each recording, each counted once among the sources and once as a BitBlt
/// or an alpha blend, with no more fallbacks than alpha blends, as long as the run is
/// shorter than the counters' limit.
pub proof fn law_recorded_blits_add_up(blits: Seq<(GdiFrameBlitSource, GdiFrameBlitKind, u64)>)
    requires
        blits.len() < usize::MAX,
    ensures
        kinds_add_up(recorded_all(metrics_zero(), blits)),
        recorded_all(metrics_zero(), blits).blit_count == blits.len(),
        source_blits(recorded_all(metrics_zero(), blits)) == blits.len(),
    decreases blits.len(),
{
    if blits.len() > 0 {
        let rest = blits.drop_last();
        law_recorded_blits_add_up(rest);
        let m = recorded_all(metrics_zero(), rest);
        let last = blits.last();
        assert(source_metrics(m, last.0).blit_count <= m.blit_count);
        law_blit_kinds_add_up(m, last.0, last.1, last.2);
    }
}

/// How a GDI renderer budget is shared: half for bitmaps, a third for overlays, the rest
/// for fonts.
pub fn gdi_cache_budget_split(budget_bytes: usize) -> (r: (usize, usize, usize))
    ensures
        r.0 == budget_bytes / 2,
        r.1 == budget_bytes / 3,
        r.2 == budget_bytes - budget_bytes / 2 - budget_bytes / 3,
        r.0 + r.1 + r.2 == budget_bytes,
{
    let bitmap = budget_bytes / 2;
    let overlay = budget_bytes / 3;
    let font = budget_bytes.saturating_sub(bitmap + overlay);
    (bitmap, overlay, font)
}

/// How a blur cache budget is shared: three eighths for results (of the budget saturated
/// at `usize::MAX` when tripled), a quarter for sources, the rest for blurred sources.
pub fn blur_cache_budget_split(budget_bytes: usize) -> (r: (usize, usize, usize))
    ensures
        r.0 == (if budget_bytes * 3 > usize::MAX {
            usize::MAX as int
        } else {
            budget_bytes * 3
        }) / 8,
        r.1 == budget_bytes / 4,
        r.0 + r.1 + r.2 == budget_bytes,
{
    let tripled = match budget_bytes.checked_mul(3) {
        Some(v) => v,
        None => usize::MAX,
    };
    let result = tripled / 8;
    let source = budget_bytes / 4;
    let blurred = budget_bytes.saturating_sub(result + source);
    (result, source, blurred)
}

} // verus!
