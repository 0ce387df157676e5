use vstd::prelude::*;

use crate::platform::static_layer::{sat_add_u64, sat_add_usize, sat_sub_usize};
use crate::text::str_equal;

verus! {

/// What the bitmap cache knows of one cached bitmap.
#[derive(Clone, Copy, Debug, PartialEq, Eq, Structural)]
pub struct GdiBitmapSurface {
    pub width: i32,
    pub height: i32,
    pub bytes: usize,
    pub last_used: u64,
    /// Whether every pixel of the bitmap is fully opaque.
    pub opaque: bool,
}

struct GdiBitmapEntry {
    key: String,
    surface: GdiBitmapSurface,
}

/// One entry of the cache as the contracts see it.
pub struct GdiEntryView {
    pub key: Seq<char>,
    pub surface: GdiBitmapSurface,
}

/// The contents and counters of the bitmap cache.
pub struct GdiCacheView {
    pub entries: Seq<GdiEntryView>,
    pub bytes: usize,
    pub tick: u64,
    pub budget_bytes: usize,
    pub hits: u64,
    pub misses: u64,
    pub evictions: u64,
}

spec fn gdi_entry_views(s: Seq<GdiBitmapEntry>) -> Seq<GdiEntryView> {
    s.map_values(|e: GdiBitmapEntry| GdiEntryView { key: e.key@, surface: e.surface })
}

/// The cached bitmaps: no two under one key, each of a valid size.
struct GdiEntries {
    items: Vec<GdiBitmapEntry>,
}

/// Bitmaps of the GDI renderer kept by key, evicted least recently used first while their
/// bytes exceed the budget. The cache keeps the bookkeeping; the bitmaps themselves are
/// created by the caller.
pub struct GdiBitmapCache {
    entries: GdiEntries,
    pub bytes: usize,
    pub tick: u64,
    pub budget_bytes: usize,
    pub hits: u64,
    pub misses: u64,
    pub evictions: u64,
}

impl View for GdiBitmapCache {
    type V = GdiCacheView;

    closed spec fn view(&self) -> GdiCacheView {
        GdiCacheView {
            entries: gdi_entry_views(self.entries.items@),
            bytes: self.bytes,
            tick: self.tick,
            budget_bytes: self.budget_bytes,
            hits: self.hits,
            misses: self.misses,
            evictions: self.evictions,
        }
    }
}

/// Whether a `width` x `height` bitmap of `len` bytes can be created: positive sizes and
/// exactly four bytes a pixel.
pub open spec fn bitmap_size_valid(width: int, height: int, len: int) -> bool {
    width > 0 && height > 0 && len == width * height * 4
}

/// No two entries share a key, and every entry is a bitmap of a valid size.
pub open spec fn gdi_entries_wf(s: Seq<GdiEntryView>) -> bool {
    &&& forall|i: int, j: int| 0 <= i < j < s.len() ==> s[i].key != s[j].key
    &&& forall|i: int|
        0 <= i < s.len() ==> bitmap_size_valid(
            (#[trigger] s[i]).surface.width as int,
            s[i].surface.height as int,
            s[i].surface.bytes as int,
        ) && s[i].surface.bytes <= i32::MAX
}

/// The position of the entry with `key`, searching from `i`; the length when there is none.
pub open spec fn gdi_key_position(s: Seq<GdiEntryView>, key: Seq<char>, i: int) -> int
    decreases s.len() - i,
{
    if i >= s.len() {
        s.len() as int
    } else if s[i].key == key {
        i
    } else {
        gdi_key_position(s, key, i + 1)
    }
}

/// The position of the first least recently used entry among `s[i..]` and `s[best]`.
pub open spec fn gdi_oldest_position(s: Seq<GdiEntryView>, i: int, best: int) -> int
    decreases s.len() - i,
{
    if i >= s.len() {
        best
    } else if s[i].surface.last_used < s[best].surface.last_used {
        gdi_oldest_position(s, i + 1, i)
    } else {
        gdi_oldest_position(s, i + 1, best)
    }
}

pub proof fn lemma_gdi_oldest_bounds(s: Seq<GdiEntryView>, i: int, best: int)
    requires
        0 <= best < s.len(),
        0 <= i,
    ensures
        0 <= gdi_oldest_position(s, i, best) < s.len(),
        forall|j: int|
            i <= j < s.len() ==> s[gdi_oldest_position(s, i, best)].surface.last_used
                <= #[trigger] s[j].surface.last_used,
        s[gdi_oldest_position(s, i, best)].surface.last_used <= s[best].surface.last_used,
    decreases s.len() - i,
{
    if i < s.len() {
        if s[i].surface.last_used < s[best].surface.last_used {
            lemma_gdi_oldest_bounds(s, i + 1, i);
        } else {
            lemma_gdi_oldest_bounds(s, i + 1, best);
        }
    }
}

proof fn lemma_gdi_key_bounds(s: Seq<GdiEntryView>, key: Seq<char>, i: int)
    requires
        0 <= i <= s.len(),
    ensures
        i <= gdi_key_position(s, key, i) <= s.len(),
        gdi_key_position(s, key, i) < s.len() ==> s[gdi_key_position(s, key, i)].key == key,
        forall|j: int| i <= j < gdi_key_position(s, key, i) ==> s[j].key != key,
    decreases s.len() - i,
{
    if i < s.len() && s[i].key != key {
        lemma_gdi_key_bounds(s, key, i + 1);
    }
}

/// The cache after evicting least recently used entries while its bytes exceed the budget.
pub open spec fn gdi_evicted(v: GdiCacheView) -> GdiCacheView
    decreases v.entries.len(),
{
    if v.bytes > v.budget_bytes && v.entries.len() > 0 {
        let p = gdi_oldest_position(v.entries, 1, 0);
        proof {
            lemma_gdi_oldest_bounds(v.entries, 1, 0);
        }
        gdi_evicted(
            GdiCacheView {
                entries: v.entries.remove(p),
                bytes: sat_sub_usize(v.bytes as int, v.entries[p].surface.bytes as int),
                evictions: sat_add_u64(v.evictions as int, 1),
                ..v
            },
        )
    } else {
        v
    }
}

/// Whether every whole pixel of a BGRA buffer has full alpha.
pub open spec fn all_opaque(pixels: Seq<u8>) -> bool {
    forall|i: int| 0 <= i < pixels.len() / 4 ==> #[trigger] pixels[4 * i + 3] == 255
}

/// The cache, and the bitmap it hands out, after asking for a `width` x `height` bitmap
/// under `key` with `pixels` as its contents: an entry of that size is a hit; otherwise
/// it is a miss, any entry under the key is dropped, and the pixels are stored unless
/// they exceed the budget, do not make a valid bitmap, or the native bitmap could not be
/// `created`. Older entries are then evicted to fit the budget.
pub open spec fn gdi_entry_result(
    v: GdiCacheView,
    key: Seq<char>,
    width: i32,
    height: i32,
    pixels: Seq<u8>,
    created: bool,
) -> (GdiCacheView, Option<GdiBitmapSurface>) {
    let tick = sat_add_u64(v.tick as int, 1);
    let p = gdi_key_position(v.entries, key, 0);
    let hit = p < v.entries.len() && v.entries[p].surface.width == width
        && v.entries[p].surface.height == height;
    if hit {
        let surface = GdiBitmapSurface { last_used: tick, ..v.entries[p].surface };
        (
            GdiCacheView {
                entries: v.entries.update(p, GdiEntryView { key, surface }),
                tick,
                hits: sat_add_u64(v.hits as int, 1),
                ..v
            },
            Some(surface),
        )
    } else {
        let (kept, kept_bytes) = if p < v.entries.len() {
            (v.entries.remove(p), sat_sub_usize(v.bytes as int, v.entries[p].surface.bytes as int))
        } else {
            (v.entries, v.bytes)
        };
        let missed = GdiCacheView {
            entries: kept,
            bytes: kept_bytes,
            tick,
            misses: sat_add_u64(v.misses as int, 1),
            ..v
        };
        if pixels.len() > v.budget_bytes || !bitmap_size_valid(
            width as int,
            height as int,
            pixels.len() as int,
        ) || !created {
            (missed, None)
        } else {
            let surface = GdiBitmapSurface {
                width,
                height,
                bytes: pixels.len() as usize,
                last_used: tick,
                opaque: all_opaque(pixels),
            };
            let evicted = gdi_evicted(
                GdiCacheView {
                    entries: kept.push(GdiEntryView { key, surface }),
                    bytes: sat_add_usize(kept_bytes as int, pixels.len() as int),
                    ..missed
                },
            );
            if gdi_key_position(evicted.entries, key, 0) < evicted.entries.len() {
                (evicted, Some(surface))
            } else {
                (evicted, None)
            }
        }
    }
}

/// The cache after probing for an entry of `width` x `height` under `key`: a match is a
/// hit and is marked as just used; anything else leaves the cache as it was.
pub open spec fn gdi_existing_result(v: GdiCacheView, key: Seq<char>, width: i32, height: i32) -> (
    GdiCacheView,
    Option<GdiBitmapSurface>,
) {
    let p = gdi_key_position(v.entries, key, 0);
    if p < v.entries.len() && v.entries[p].surface.width == width && v.entries[p].surface.height
        == height {
        let tick = sat_add_u64(v.tick as int, 1);
        let surface = GdiBitmapSurface { last_used: tick, ..v.entries[p].surface };
        (
            GdiCacheView {
                entries: v.entries.update(p, GdiEntryView { key, surface }),
                tick,
                hits: sat_add_u64(v.hits as int, 1),
                ..v
            },
            Some(surface),
        )
    } else {
        (v, None)
    }
}

proof fn lemma_gdi_remove_keeps_wf(s: Seq<GdiEntryView>, p: int)
    requires
        gdi_entries_wf(s),
        0 <= p < s.len(),
    ensures
        gdi_entries_wf(s.remove(p)),
{
    let r = s.remove(p);
    assert forall|i: int, j: int| 0 <= i < j < r.len() implies r[i].key != r[j].key by {
        let a = if i < p { i } else { i + 1 };
        let b = if j < p { j } else { j + 1 };
        assert(r[i] == s[a]);
        assert(r[j] == s[b]);
    }
    assert forall|i: int| 0 <= i < r.len() implies bitmap_size_valid(
        (#[trigger] r[i]).surface.width as int,
        r[i].surface.height as int,
        r[i].surface.bytes as int,
    ) && r[i].surface.bytes <= i32::MAX by {
        let a = if i < p { i } else { i + 1 };
        assert(r[i] == s[a]);
    }
}

impl GdiEntries {
    #[verifier::type_invariant]
    spec fn consistent(self) -> bool {
        gdi_entries_wf(gdi_entry_views(self.items@))
    }

    fn empty() -> (r: GdiEntries)
        ensures
            gdi_entry_views(r.items@) == Seq::<GdiEntryView>::empty(),
    {
        let items: Vec<GdiBitmapEntry> = Vec::new();
        assert(gdi_entry_views(items@) =~= Seq::<GdiEntryView>::empty());
        GdiEntries { items }
    }

    fn remove(&mut self, p: usize) -> (removed: GdiBitmapSurface)
        requires
            p < old(self).items@.len(),
        ensures
            gdi_entry_views(final(self).items@) == gdi_entry_views(old(self).items@).remove(p as int),
            removed == gdi_entry_views(old(self).items@)[p as int].surface,
    {
        proof {
            use_type_invariant(&*self);
            lemma_gdi_remove_keeps_wf(gdi_entry_views(self.items@), p as int);
        }
        let ghost before = self.items@;
        let mut items: Vec<GdiBitmapEntry> = Vec::new();
        assert(gdi_entry_views(items@) =~= Seq::<GdiEntryView>::empty());
        std::mem::swap(&mut items, &mut self.items);
        let entry = items.remove(p);
        assert(gdi_entry_views(items@) =~= gdi_entry_views(before).remove(p as int));
        self.items = items;
        entry.surface
    }

    fn set_surface(&mut self, p: usize, surface: GdiBitmapSurface)
        requires
            p < old(self).items@.len(),
            surface.width == old(self).items@[p as int].surface.width,
            surface.height == old(self).items@[p as int].surface.height,
            surface.bytes == old(self).items@[p as int].surface.bytes,
        ensures
            gdi_entry_views(final(self).items@) == gdi_entry_views(old(self).items@).update(
                p as int,
                GdiEntryView { key: old(self).items@[p as int].key@, surface },
            ),
    {
        proof {
            use_type_invariant(&*self);
        }
        let ghost before = self.items@;
        let mut items: Vec<GdiBitmapEntry> = Vec::new();
        assert(gdi_entry_views(items@) =~= Seq::<GdiEntryView>::empty());
        std::mem::swap(&mut items, &mut self.items);
        items[p].surface = surface;
        proof {
            assert(gdi_entry_views(items@) =~= gdi_entry_views(before).update(
                p as int,
                GdiEntryView { key: before[p as int].key@, surface },
            ));
            let s = gdi_entry_views(items@);
            let b = gdi_entry_views(before);
            assert forall|i: int, j: int| 0 <= i < j < s.len() implies s[i].key != s[j].key by {
                assert(s[i].key == b[i].key);
                assert(s[j].key == b[j].key);
            }
            assert forall|i: int| 0 <= i < s.len() implies bitmap_size_valid(
                (#[trigger] s[i]).surface.width as int,
                s[i].surface.height as int,
                s[i].surface.bytes as int,
            ) && s[i].surface.bytes <= i32::MAX by {
                assert(s[i].surface.width == b[i].surface.width);
                assert(s[i].surface.bytes == b[i].surface.bytes);
            }
        }
        self.items = items;
    }

    fn push(&mut self, key: String, surface: GdiBitmapSurface)
        requires
            forall|j: int| 0 <= j < old(self).items@.len() ==> #[trigger] old(self).items@[j].key@ != key@,
            bitmap_size_valid(surface.width as int, surface.height as int, surface.bytes as int),
            surface.bytes <= i32::MAX,
        ensures
            gdi_entry_views(final(self).items@) == gdi_entry_views(old(self).items@).push(
                GdiEntryView { key: key@, surface },
            ),
    {
        proof {
            use_type_invariant(&*self);
        }
        let ghost before = self.items@;
        let ghost k = key@;
        let mut items: Vec<GdiBitmapEntry> = Vec::new();
        assert(gdi_entry_views(items@) =~= Seq::<GdiEntryView>::empty());
        std::mem::swap(&mut items, &mut self.items);
        items.push(GdiBitmapEntry { key, surface });
        proof {
            let s = gdi_entry_views(items@);
            assert(s =~= gdi_entry_views(before).push(GdiEntryView { key: k, surface }));
            assert forall|i: int, j: int| 0 <= i < j < s.len() implies s[i].key != s[j].key by {
                if j == before.len() {
                    assert(before[i].key@ != k);
                }
            }
        }
        self.items = items;
    }
}

impl GdiBitmapCache {
    /// An empty cache with a zero budget.
    pub fn new() -> (r: GdiBitmapCache)
        ensures
            r@ == (GdiCacheView {
                entries: Seq::empty(),
                bytes: 0,
                tick: 0,
                budget_bytes: 0,
                hits: 0,
                misses: 0,
                evictions: 0,
            }),
    {
        let r = GdiBitmapCache {
            entries: GdiEntries::empty(),
            bytes: 0,
            tick: 0,
            budget_bytes: 0,
            hits: 0,
            misses: 0,
            evictions: 0,
        };
        r
    }

    /// The number of cached bitmaps.
    pub fn len(&self) -> (r: usize)
        ensures
            r == self@.entries.len(),
    {
        self.entries.items.len()
    }

    fn next_tick(&mut self) -> (r: u64)
        ensures
            r == sat_add_u64(old(self)@.tick as int, 1),
            final(self)@ == (GdiCacheView { tick: r, ..old(self)@ }),
    {
        self.tick = self.tick.saturating_add(1);
        self.tick
    }

    fn find(&self, key: &str) -> (r: usize)
        ensures
            r == gdi_key_position(self@.entries, key@, 0),
    {
        let ghost all = self@.entries;
        proof {
            lemma_gdi_key_bounds(all, key@, 0);
        }
        let mut i: usize = 0;
        while i < self.entries.items.len()
            invariant
                i <= self.entries.items@.len(),
                all == gdi_entry_views(self.entries.items@),
                gdi_key_position(all, key@, 0) == gdi_key_position(all, key@, i as int),
            decreases self.entries.items@.len() - i,
        {
            if str_equal(self.entries.items[i].key.as_str(), key) {
                return i;
            }
            i = i + 1;
        }
        i
    }

    fn oldest(&self) -> (r: usize)
        requires
            self@.entries.len() > 0,
        ensures
            r == gdi_oldest_position(self@.entries, 1, 0),
    {
        let ghost all = self@.entries;
        let mut best: usize = 0;
        let mut i: usize = 1;
        while i < self.entries.items.len()
            invariant
                1 <= i <= self.entries.items@.len(),
                best < self.entries.items@.len(),
                all == gdi_entry_views(self.entries.items@),
                gdi_oldest_position(all, 1, 0) == gdi_oldest_position(all, i as int, best as int),
            decreases self.entries.items@.len() - i,
        {
            if self.entries.items[i].surface.last_used < self.entries.items[best].surface.last_used {
                best = i;
            }
            i = i + 1;
        }
        best
    }

    fn remove_entry(&mut self, p: usize) -> (bytes: usize)
        requires
            p < old(self)@.entries.len(),
        ensures
            final(self)@ == (GdiCacheView { entries: old(self)@.entries.remove(p as int), ..old(self)@ }),
            bytes == old(self)@.entries[p as int].surface.bytes,
    {
        let removed = self.entries.remove(p);
        removed.bytes
    }

    fn mark_used(&mut self, p: usize, tick: u64) -> (r: GdiBitmapSurface)
        requires
            p < old(self)@.entries.len(),
        ensures
            r == (GdiBitmapSurface { last_used: tick, ..old(self)@.entries[p as int].surface }),
            final(self)@ == (GdiCacheView {
                entries: old(self)@.entries.update(
                    p as int,
                    GdiEntryView { key: old(self)@.entries[p as int].key, surface: r },
                ),
                ..old(self)@
            }),
    {
        let mut surface = self.entries.items[p].surface;
        surface.last_used = tick;
        self.entries.set_surface(p, surface);
        surface
    }

    /// Evicts least recently used bitmaps while the bytes exceed the budget.
    pub fn evict_to_budget(&mut self)
        ensures
            final(self)@ == gdi_evicted(old(self)@),
    {
        while self.bytes > self.budget_bytes && self.entries.items.len() > 0
            invariant
                gdi_evicted(self@) == gdi_evicted(old(self)@),
            decreases self@.entries.len(),
        {
            let p = self.oldest();
            proof {
                lemma_gdi_oldest_bounds(self@.entries, 1, 0);
            }
            let bytes = self.remove_entry(p);
            self.bytes = self.bytes.saturating_sub(bytes);
            self.evictions = self.evictions.saturating_add(1);
        }
    }
}


/// The cache after its budget is set to `budget_bytes` and it is evicted to fit.
pub open spec fn gdi_budget_set(v: GdiCacheView, budget_bytes: usize) -> GdiCacheView {
    gdi_evicted(GdiCacheView { budget_bytes, ..v })
}

/// The cache after a trim towards `target_bytes`: evicted as if the budget were the
/// smaller of the target and the budget, the budget itself left as it was.
pub open spec fn gdi_trimmed(v: GdiCacheView, target_bytes: usize) -> GdiCacheView {
    let budget = if target_bytes < v.budget_bytes {
        target_bytes
    } else {
        v.budget_bytes
    };
    GdiCacheView { budget_bytes: v.budget_bytes, ..gdi_evicted(GdiCacheView { budget_bytes: budget, ..v }) }
}

fn pixels_opaque(pixels: &[u8]) -> (r: bool)
    ensures
        r == all_opaque(pixels@),
{
    let len = pixels.len();
    let n = len / 4;
    let mut i: usize = 0;
    while i < n
        invariant
            i <= n,
            len == pixels@.len(),
            n == len / 4,
            forall|j: int| 0 <= j < i ==> #[trigger] pixels@[4 * j + 3] == 255,
        decreases n - i,
    {
        if pixels[4 * i + 3] != 255 {
            return false;
        }
        i = i + 1;
    }
    true
}

impl Default for GdiBitmapCache {
    fn default() -> (r: Self)
        ensures
            r@ == (GdiCacheView {
                entries: Seq::empty(),
                bytes: 0,
                tick: 0,
                budget_bytes: 0,
                hits: 0,
                misses: 0,
                evictions: 0,
            }),
    {
        GdiBitmapCache::new()
    }
}

impl GdiBitmapCache {
    /// The bitmap of `width` x `height` under `key`, stored from `pixels` when the cache
    /// holds none of that size. A cached bitmap of that size is a hit; anything else is a
    /// miss that drops a bitmap of another size under the key and stores the pixels,
    /// unless they exceed the budget or do not make a valid bitmap, then evicts older
    /// bitmaps to fit. `created` tells whether the native bitmap for the pixels could be
    /// made; when it could not, nothing is stored. `None` when nothing could be stored, or
    /// when the new bitmap did not survive the eviction.
    pub fn entry(&mut self, key: &str, width: i32, height: i32, pixels: &[u8], created: bool) -> (r: Option<
        GdiBitmapSurface,
    >)
        requires
            width > 0 && height > 0 && pixels@.len() <= old(self)@.budget_bytes ==> width * height * 4
                <= i32::MAX,
        ensures
            (final(self)@, r) == gdi_entry_result(old(self)@, key@, width, height, pixels@, created),
    {
        proof {
            use_type_invariant(&self.entries);
        }
        let ghost start = self@;
        let tick = self.next_tick();
        let p = self.find(key);
        proof {
            lemma_gdi_key_bounds(start.entries, key@, 0);
        }
        if p < self.entries.items.len() && self.entries.items[p].surface.width == width
            && self.entries.items[p].surface.height == height {
            self.hits = self.hits.saturating_add(1);
            let surface = self.mark_used(p, tick);
            return Some(surface);
        }
        self.misses = self.misses.saturating_add(1);
        if p < self.entries.items.len() {
            let previous = self.remove_entry(p);
            self.bytes = self.bytes.saturating_sub(previous);
        }
        let ghost kept = self@;
        proof {
            assert forall|j: int| 0 <= j < kept.entries.len() implies kept.entries[j].key != key@ by {
                if p < start.entries.len() {
                    let k = if j < p { j } else { j + 1 };
                    assert(kept.entries[j] == start.entries[k]);
                    assert(start.entries[p as int].key == key@);
                }
            }
        }
        if pixels.len() > self.budget_bytes {
            return None;
        }
        if width <= 0 || height <= 0 {
            return None;
        }
        proof {
            assert(0 < (width as int) * (height as int) <= 0x4000_0000_0000_0000) by (nonlinear_arith)
                requires
                    0 < width <= 0x7fff_ffff,
                    0 < height <= 0x7fff_ffff,
            ;
        }
        let expected = (width as i64) * (height as i64) * 4;
        if pixels.len() != expected as usize {
            return None;
        }
        if !created {
            return None;
        }
        let surface = GdiBitmapSurface {
            width,
            height,
            bytes: pixels.len(),
            last_used: tick,
            opaque: pixels_opaque(pixels),
        };
        self.bytes = self.bytes.saturating_add(pixels.len());
        proof {
            assert forall|j: int| 0 <= j < self.entries.items@.len() implies #[trigger] self.entries.items@[j].key@
                != key@ by {
                assert(kept.entries[j].key == self.entries.items@[j].key@);
            }
            assert((width as int) * (height as int) * 4 == pixels@.len());
        }
        self.entries.push(key.to_owned(), surface);
        self.evict_to_budget();
        let q = self.find(key);
        if q < self.entries.items.len() {
            Some(surface)
        } else {
            None
        }
    }

    /// The bitmap of `width` x `height` under `key` if the cache holds one, counted as a
    /// hit and marked as just used; nothing is stored and no miss is counted otherwise.
    pub fn existing_entry(&mut self, key: &str, width: i32, height: i32) -> (r: Option<
        GdiBitmapSurface,
    >)
        ensures
            (final(self)@, r) == gdi_existing_result(old(self)@, key@, width, height),
    {
        let p = self.find(key);
        proof {
            lemma_gdi_key_bounds(self@.entries, key@, 0);
        }
        if p < self.entries.items.len() && self.entries.items[p].surface.width == width
            && self.entries.items[p].surface.height == height {
            let tick = self.next_tick();
            self.hits = self.hits.saturating_add(1);
            let surface = self.mark_used(p, tick);
            Some(surface)
        } else {
            None
        }
    }

    /// Evicts as if the budget were at most `target_bytes`, keeping the budget itself;
    /// returns the bytes freed.
    pub fn trim_to(&mut self, target_bytes: usize) -> (freed: usize)
        ensures
            final(self)@ == gdi_trimmed(old(self)@, target_bytes),
            freed == sat_sub_usize(old(self)@.bytes as int, final(self)@.bytes as int),
    {
        let before = self.bytes;
        let previous = self.budget_bytes;
        self.budget_bytes = if target_bytes < previous {
            target_bytes
        } else {
            previous
        };
        self.evict_to_budget();
        self.budget_bytes = previous;
        before.saturating_sub(self.bytes)
    }

    /// Sets the budget and evicts to fit it.
    pub fn set_budget(&mut self, budget_bytes: usize)
        ensures
            final(self)@ == gdi_budget_set(old(self)@, budget_bytes),
    {
        self.budget_bytes = budget_bytes;
        self.evict_to_budget();
    }
}

/// Eviction ends with the cache's bytes within its budget, or with the cache empty; it
/// only removes bitmaps and leaves the budget alone.
pub proof fn law_gdi_eviction_fits_budget(v: GdiCacheView)
    ensures
        ({
            let w = gdi_evicted(v);
            &&& w.bytes <= w.budget_bytes || w.entries.len() == 0
            &&& w.budget_bytes == v.budget_bytes
            &&& w.entries.len() <= v.entries.len()
        }),
    decreases v.entries.len(),
{
    if v.bytes > v.budget_bytes && v.entries.len() > 0 {
        let p = gdi_oldest_position(v.entries, 1, 0);
        lemma_gdi_oldest_bounds(v.entries, 1, 0);
        law_gdi_eviction_fits_budget(
            GdiCacheView {
                entries: v.entries.remove(p),
                bytes: sat_sub_usize(v.bytes as int, v.entries[p].surface.bytes as int),
                evictions: sat_add_u64(v.evictions as int, 1),
                ..v
            },
        );
    }
}

/// Every bitmap was last used no later than the cache's clock.
pub open spec fn gdi_uses_within_clock(v: GdiCacheView) -> bool {
    forall|i: int| 0 <= i < v.entries.len() ==> #[trigger] v.entries[i].surface.last_used <= v.tick
}

/// Whether `e` is one of the entries of `s`.
pub open spec fn gdi_entry_among(e: GdiEntryView, s: Seq<GdiEntryView>) -> bool {
    exists|j: int| 0 <= j < s.len() && s[j] == e
}

proof fn lemma_gdi_evicted_keeps_entries(v: GdiCacheView)
    ensures
        gdi_evicted(v).tick == v.tick,
        forall|k: int|
            0 <= k < gdi_evicted(v).entries.len() ==> gdi_entry_among(#[trigger] gdi_evicted(v).entries[k], v.entries),
    decreases v.entries.len(),
{
    if v.bytes > v.budget_bytes && v.entries.len() > 0 {
        let p = gdi_oldest_position(v.entries, 1, 0);
        lemma_gdi_oldest_bounds(v.entries, 1, 0);
        let w = GdiCacheView {
            entries: v.entries.remove(p),
            bytes: sat_sub_usize(v.bytes as int, v.entries[p].surface.bytes as int),
            evictions: sat_add_u64(v.evictions as int, 1),
            ..v
        };
        lemma_gdi_evicted_keeps_entries(w);
        assert forall|k: int| 0 <= k < gdi_evicted(v).entries.len() implies gdi_entry_among(
            #[trigger] gdi_evicted(v).entries[k],
            v.entries,
        ) by {
            assert(gdi_entry_among(gdi_evicted(w).entries[k], w.entries));
            let j = choose|j: int| 0 <= j < w.entries.len() && w.entries[j] == gdi_evicted(w).entries[k];
            if j < p {
                assert(w.entries[j] == v.entries[j]);
            } else {
                assert(w.entries[j] == v.entries[j + 1]);
            }
        }
    } else {
        assert forall|k: int| 0 <= k < gdi_evicted(v).entries.len() implies gdi_entry_among(
            #[trigger] gdi_evicted(v).entries[k],
            v.entries,
        ) by {
            assert(gdi_evicted(v).entries[k] == v.entries[k]);
        }
    }
}

/// A bitmap handed out by `entry` is marked as just used: a hit as much as a fresh store
/// stamps it with the cache's new tick, the cache holds it under its key, and no other
/// bitmap was used later, so eviction takes it last.
pub proof fn law_entry_marks_bitmap_just_used(
    v: GdiCacheView,
    key: Seq<char>,
    width: i32,
    height: i32,
    pixels: Seq<u8>,
    created: bool,
)
    requires
        gdi_entries_wf(v.entries),
        gdi_uses_within_clock(v),
    ensures
        ({
            let (w, r) = gdi_entry_result(v, key, width, height, pixels, created);
            &&& w.tick == sat_add_u64(v.tick as int, 1)
            &&& gdi_uses_within_clock(w)
            &&& r matches Some(s) ==> {
                &&& s.last_used == w.tick
                &&& exists|i: int|
                    0 <= i < w.entries.len() && #[trigger] w.entries[i].key == key && w.entries[i].surface == s
                &&& forall|j: int| 0 <= j < w.entries.len() ==> #[trigger] w.entries[j].surface.last_used <= s.last_used
            }
        }),
{
    let tick = sat_add_u64(v.tick as int, 1);
    let p = gdi_key_position(v.entries, key, 0);
    lemma_gdi_key_bounds(v.entries, key, 0);
    let (w, r) = gdi_entry_result(v, key, width, height, pixels, created);
    let hit = p < v.entries.len() && v.entries[p].surface.width == width && v.entries[p].surface.height
        == height;
    if hit {
        let s = GdiBitmapSurface { last_used: tick, ..v.entries[p].surface };
        assert(w.entries[p].key == key && w.entries[p].surface == s);
        assert forall|j: int| 0 <= j < w.entries.len() implies #[trigger] w.entries[j].surface.last_used <= tick by {
            if j != p {
                assert(w.entries[j] == v.entries[j]);
            }
        }
    } else {
        let kept = if p < v.entries.len() {
            v.entries.remove(p)
        } else {
            v.entries
        };
        assert forall|j: int| 0 <= j < kept.len() implies #[trigger] kept[j].key != key
            && kept[j].surface.last_used <= v.tick by {
            if p < v.entries.len() {
                if j < p {
                    assert(kept[j] == v.entries[j]);
                } else {
                    assert(kept[j] == v.entries[j + 1]);
                    assert(v.entries[p].key != v.entries[j + 1].key);
                }
            }
        }
        if !(pixels.len() > v.budget_bytes || !bitmap_size_valid(width as int, height as int, pixels.len() as int)
            || !created) {
            let surface = GdiBitmapSurface {
                width,
                height,
                bytes: pixels.len() as usize,
                last_used: tick,
                opaque: all_opaque(pixels),
            };
            let kept_bytes = if p < v.entries.len() {
                sat_sub_usize(v.bytes as int, v.entries[p].surface.bytes as int)
            } else {
                v.bytes
            };
            let pushed = kept.push(GdiEntryView { key, surface });
            let before = GdiCacheView {
                entries: pushed,
                bytes: sat_add_usize(kept_bytes as int, pixels.len() as int),
                tick,
                misses: sat_add_u64(v.misses as int, 1),
                ..v
            };
            lemma_gdi_evicted_keeps_entries(before);
            let evicted = gdi_evicted(before);
            assert(w == evicted);
            assert forall|j: int| 0 <= j < evicted.entries.len() implies #[trigger] evicted.entries[j].surface.last_used
                <= tick by {
                assert(gdi_entry_among(evicted.entries[j], pushed));
                let m = choose|m: int| 0 <= m < pushed.len() && pushed[m] == evicted.entries[j];
                if m < kept.len() {
                    assert(pushed[m] == kept[m]);
                }
            }
            lemma_gdi_key_bounds(evicted.entries, key, 0);
            let q = gdi_key_position(evicted.entries, key, 0);
            if q < evicted.entries.len() {
                assert(gdi_entry_among(evicted.entries[q], pushed));
                let m = choose|m: int| 0 <= m < pushed.len() && pushed[m] == evicted.entries[q];
                if m < kept.len() {
                    assert(pushed[m] == kept[m]);
                }
                assert(evicted.entries[q].key == key && evicted.entries[q].surface == surface);
            }
        } else {
            assert forall|j: int| 0 <= j < w.entries.len() implies #[trigger] w.entries[j].surface.last_used <= tick by {
                assert(w.entries[j] == kept[j]);
            }
        }
    }
}

/// A bitmap that `existing_entry` finds is marked as just used in the same way: stamped
/// with the cache's new tick and used no earlier than any other bitmap.
pub proof fn law_existing_entry_marks_bitmap_just_used(v: GdiCacheView, key: Seq<char>, width: i32, height: i32)
    requires
        gdi_uses_within_clock(v),
    ensures
        ({
            let (w, r) = gdi_existing_result(v, key, width, height);
            &&& gdi_uses_within_clock(w)
            &&& r matches Some(s) ==> {
                &&& w.tick == sat_add_u64(v.tick as int, 1)
                &&& s.last_used == w.tick
                &&& exists|i: int|
                    0 <= i < w.entries.len() && #[trigger] w.entries[i].key == key && w.entries[i].surface == s
                &&& forall|j: int| 0 <= j < w.entries.len() ==> #[trigger] w.entries[j].surface.last_used <= s.last_used
            }
        }),
{
    let p = gdi_key_position(v.entries, key, 0);
    lemma_gdi_key_bounds(v.entries, key, 0);
    let (w, r) = gdi_existing_result(v, key, width, height);
    if r is Some {
        let tick = sat_add_u64(v.tick as int, 1);
        assert(w.entries[p].key == key);
        assert forall|j: int| 0 <= j < w.entries.len() implies #[trigger] w.entries[j].surface.last_used <= tick by {
            if j != p {
                assert(w.entries[j] == v.entries[j]);
            }
        }
    }
}

} // verus!
