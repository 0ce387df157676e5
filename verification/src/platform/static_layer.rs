use vstd::prelude::*;
use vstd::utf8::encode_utf8;

use crate::renderer::{StaticLayerMemoryCachePrefixStats, StaticLayerMemoryCacheStats};
use crate::router::params::{
    lemma_bytes_lt_asymmetric, lemma_bytes_lt_total, lemma_bytes_lt_transitive, name_lt, order_names,
    NameOrder,
};
use crate::geometry::min_int;
use crate::text::{chars_equal, chars_of, slice_chars, str_equal};

verus! {

/// A rasterised static layer: premultiplied BGRA pixels.
pub struct StaticLayerBitmap {
    pub width: i32,
    pub height: i32,
    pub pixels: Vec<u8>,
}

impl StaticLayerBitmap {
    pub fn byte_len(&self) -> (r: usize)
        ensures
            r == self.pixels@.len(),
    {
        self.pixels.len()
    }
}

struct StaticLayerMemoryEntry {
    key: String,
    id: String,
    last_used: u64,
    bytes: usize,
    bitmap: StaticLayerBitmap,
}

/// What the cache knows of one entry: its key, the id of the layer it belongs to, when it
/// was last used, and its bitmap.
pub struct EntryView {
    pub key: Seq<char>,
    pub id: Seq<char>,
    pub last_used: u64,
    pub width: i32,
    pub height: i32,
    pub pixels: Seq<u8>,
}

/// The contents and counters of the static layer memory cache.
pub struct CacheView {
    pub entries: Seq<EntryView>,
    pub bytes: usize,
    pub tick: u64,
    pub budget_bytes: usize,
    pub hits: u64,
    pub misses: u64,
    pub stores: u64,
    pub evictions: u64,
}

impl StaticLayerMemoryEntry {
    spec fn view_of(self) -> EntryView {
        EntryView {
            key: self.key@,
            id: self.id@,
            last_used: self.last_used,
            width: self.bitmap.width,
            height: self.bitmap.height,
            pixels: self.bitmap.pixels@,
        }
    }
}

spec fn entry_views(s: Seq<StaticLayerMemoryEntry>) -> Seq<EntryView> {
    s.map_values(|e: StaticLayerMemoryEntry| e.view_of())
}

/// Rasterised static layers kept in memory, evicted least recently used first once
/// their bytes exceed the budget.
pub struct StaticLayerMemoryCache {
    entries: Vec<StaticLayerMemoryEntry>,
    bytes: usize,
    tick: u64,
    budget_bytes: usize,
    hits: u64,
    misses: u64,
    stores: u64,
    evictions: u64,
}

impl View for StaticLayerMemoryCache {
    type V = CacheView;

    closed spec fn view(&self) -> CacheView {
        CacheView {
            entries: entry_views(self.entries@),
            bytes: self.bytes,
            tick: self.tick,
            budget_bytes: self.budget_bytes,
            hits: self.hits,
            misses: self.misses,
            stores: self.stores,
            evictions: self.evictions,
        }
    }
}

/// No two entries share a key.
pub open spec fn keys_distinct(s: Seq<EntryView>) -> bool {
    forall|i: int, j: int| 0 <= i < j < s.len() ==> s[i].key != s[j].key
}

pub open spec fn sat_add_u64(a: int, b: int) -> u64 {
    if a + b > u64::MAX {
        u64::MAX
    } else {
        (a + b) as u64
    }
}

pub open spec fn sat_add_usize(a: int, b: int) -> usize {
    if a + b > usize::MAX {
        usize::MAX
    } else {
        (a + b) as usize
    }
}

pub open spec fn sat_sub_usize(a: int, b: int) -> usize {
    if a - b < 0 {
        0
    } else {
        (a - b) as usize
    }
}

/// The position of the entry with `key`, searching from `i`; the length when there is none.
pub open spec fn key_position(s: Seq<EntryView>, key: Seq<char>, i: int) -> int
    decreases s.len() - i,
{
    if i >= s.len() {
        s.len() as int
    } else if s[i].key == key {
        i
    } else {
        key_position(s, key, i + 1)
    }
}

/// The position of the first least recently used entry among `s[i..]` and `s[best]`.
pub open spec fn oldest_position(s: Seq<EntryView>, i: int, best: int) -> int
    decreases s.len() - i,
{
    if i >= s.len() {
        best
    } else if s[i].last_used < s[best].last_used {
        oldest_position(s, i + 1, i)
    } else {
        oldest_position(s, i + 1, best)
    }
}

pub proof fn lemma_oldest_position_bounds(s: Seq<EntryView>, i: int, best: int)
    requires
        0 <= best < s.len(),
        0 <= i,
    ensures
        0 <= oldest_position(s, i, best) < s.len(),
    decreases s.len() - i,
{
    if i < s.len() {
        if s[i].last_used < s[best].last_used {
            lemma_oldest_position_bounds(s, i + 1, i);
        } else {
            lemma_oldest_position_bounds(s, i + 1, best);
        }
    }
}

proof fn lemma_key_position_bounds(s: Seq<EntryView>, key: Seq<char>, i: int)
    requires
        0 <= i <= s.len(),
    ensures
        i <= key_position(s, key, i) <= s.len(),
        key_position(s, key, i) < s.len() ==> s[key_position(s, key, i)].key == key,
        forall|j: int| i <= j < key_position(s, key, i) ==> s[j].key != key,
    decreases s.len() - i,
{
    if i < s.len() && s[i].key != key {
        lemma_key_position_bounds(s, key, i + 1);
    }
}

/// Evicts least recently used entries while the bytes exceed the budget, keeping at
/// least one entry.
pub open spec fn evicted_to_budget(v: CacheView) -> CacheView
    decreases v.entries.len(),
{
    if v.bytes > v.budget_bytes && v.entries.len() > 1 {
        let p = oldest_position(v.entries, 1, 0);
        proof {
            lemma_oldest_position_bounds(v.entries, 1, 0);
        }
        evicted_to_budget(
            CacheView {
                entries: v.entries.remove(p),
                bytes: sat_sub_usize(v.bytes as int, v.entries[p].pixels.len() as int),
                evictions: sat_add_u64(v.evictions as int, 1),
                ..v
            },
        )
    } else {
        v
    }
}

/// Every entry was last used no later than the cache's clock.
pub open spec fn uses_within_clock(v: CacheView) -> bool {
    forall|i: int| 0 <= i < v.entries.len() ==> #[trigger] v.entries[i].last_used <= v.tick
}

/// Whether the last entry was used no earlier than any other.
pub open spec fn last_is_newest(s: Seq<EntryView>) -> bool {
    s.len() > 0 && forall|j: int| 0 <= j < s.len() ==> #[trigger] s[j].last_used <= s.last().last_used
}

proof fn lemma_oldest_is_not_newest(s: Seq<EntryView>, i: int, best: int)
    requires
        last_is_newest(s),
        0 <= best < s.len() - 1,
        0 <= i,
    ensures
        oldest_position(s, i, best) < s.len() - 1,
    decreases s.len() - i,
{
    if i < s.len() {
        if s[i].last_used < s[best].last_used {
            assert(s[best].last_used <= s.last().last_used);
            lemma_oldest_is_not_newest(s, i + 1, i);
        } else {
            lemma_oldest_is_not_newest(s, i + 1, best);
        }
    }
}

proof fn lemma_eviction_keeps_newest(v: CacheView)
    requires
        last_is_newest(v.entries),
    ensures
        last_is_newest(evicted_to_budget(v).entries),
        evicted_to_budget(v).entries.last() == v.entries.last(),
        evicted_to_budget(v).tick == v.tick,
        uses_within_clock(v) ==> uses_within_clock(evicted_to_budget(v)),
    decreases v.entries.len(),
{
    if v.bytes > v.budget_bytes && v.entries.len() > 1 {
        let p = oldest_position(v.entries, 1, 0);
        lemma_oldest_is_not_newest(v.entries, 1, 0);
        lemma_oldest_position_bounds(v.entries, 1, 0);
        let rest = v.entries.remove(p);
        assert(rest.last() == v.entries.last());
        assert forall|j: int| 0 <= j < rest.len() implies #[trigger] rest[j].last_used <= rest.last().last_used by {
            if j < p {
                assert(rest[j] == v.entries[j]);
            } else {
                assert(rest[j] == v.entries[j + 1]);
            }
        }
        let w = CacheView {
            entries: rest,
            bytes: sat_sub_usize(v.bytes as int, v.entries[p].pixels.len() as int),
            evictions: sat_add_u64(v.evictions as int, 1),
            ..v
        };
        if uses_within_clock(v) {
            assert forall|j: int| 0 <= j < rest.len() implies #[trigger] rest[j].last_used <= w.tick by {
                if j < p {
                    assert(rest[j] == v.entries[j]);
                } else {
                    assert(rest[j] == v.entries[j + 1]);
                }
            }
        }
        lemma_eviction_keeps_newest(w);
    }
}

proof fn lemma_eviction_keeps_clock(v: CacheView)
    requires
        uses_within_clock(v),
    ensures
        uses_within_clock(evicted_to_budget(v)),
    decreases v.entries.len(),
{
    if v.bytes > v.budget_bytes && v.entries.len() > 1 {
        let p = oldest_position(v.entries, 1, 0);
        lemma_oldest_position_bounds(v.entries, 1, 0);
        let rest = v.entries.remove(p);
        let w = CacheView {
            entries: rest,
            bytes: sat_sub_usize(v.bytes as int, v.entries[p].pixels.len() as int),
            evictions: sat_add_u64(v.evictions as int, 1),
            ..v
        };
        assert forall|j: int| 0 <= j < rest.len() implies #[trigger] rest[j].last_used <= w.tick by {
            if j < p {
                assert(rest[j] == v.entries[j]);
            } else {
                assert(rest[j] == v.entries[j + 1]);
            }
        }
        lemma_eviction_keeps_clock(w);
    }
}

/// Storing never evicts the entry just stored: it stays, as the last entry, stamped with
/// the cache's next tick. Every operation also keeps each entry's last use within the
/// cache's clock: eviction and a lookup as much as a store.
pub proof fn law_store_keeps_the_new_entry(v: CacheView, entry: EntryView, budget_bytes: usize, key: Seq<char>)
    requires
        uses_within_clock(v),
    ensures
        stored(v, entry, budget_bytes).entries.len() > 0,
        stored(v, entry, budget_bytes).entries.last() == (EntryView {
            last_used: sat_add_u64(v.tick as int, 1),
            ..entry
        }),
        uses_within_clock(stored(v, entry, budget_bytes)),
        uses_within_clock(evicted_to_budget(v)),
        uses_within_clock(touched(v, key)),
{
    let tick = sat_add_u64(v.tick as int, 1);
    let p = key_position(v.entries, entry.key, 0);
    lemma_key_position_bounds(v.entries, entry.key, 0);
    let kept = if p < v.entries.len() {
        v.entries.remove(p)
    } else {
        v.entries
    };
    assert forall|j: int| 0 <= j < kept.len() implies #[trigger] kept[j].last_used <= v.tick by {
        if p < v.entries.len() {
            if j < p {
                assert(kept[j] == v.entries[j]);
            } else {
                assert(kept[j] == v.entries[j + 1]);
            }
        }
    }
    let fresh = EntryView { last_used: tick, ..entry };
    let pushed = kept.push(fresh);
    assert(pushed.last() == fresh);
    assert forall|j: int| 0 <= j < pushed.len() implies #[trigger] pushed[j].last_used <= pushed.last().last_used by {
        if j < kept.len() {
            assert(pushed[j] == kept[j]);
        }
    }
    let bytes = entry.pixels.len() as int;
    let budget = if budget_bytes >= bytes {
        budget_bytes as int
    } else {
        bytes
    };
    let budget = if budget >= 1 {
        budget
    } else {
        1
    };
    let kept_bytes = if p < v.entries.len() {
        sat_sub_usize(v.bytes as int, v.entries[p].pixels.len() as int)
    } else {
        v.bytes
    };
    let before = CacheView {
        entries: pushed,
        bytes: sat_add_usize(kept_bytes as int, bytes),
        tick,
        budget_bytes: budget as usize,
        stores: sat_add_u64(v.stores as int, 1),
        ..v
    };
    assert(uses_within_clock(before)) by {
        assert forall|j: int| 0 <= j < pushed.len() implies #[trigger] pushed[j].last_used <= tick by {
            if j < kept.len() {
                assert(pushed[j] == kept[j]);
            }
        }
    }
    lemma_eviction_keeps_newest(before);
    assert(stored(v, entry, budget_bytes) == evicted_to_budget(before));
    lemma_eviction_keeps_clock(v);
    let q = key_position(v.entries, key, 0);
    lemma_key_position_bounds(v.entries, key, 0);
    if q < v.entries.len() {
        let t = touched(v, key);
        assert forall|j: int| 0 <= j < t.entries.len() implies #[trigger] t.entries[j].last_used <= t.tick by {
            if j != q {
                assert(t.entries[j] == v.entries[j]);
            }
        }
    }
}

/// The pixel bytes that the entries hold together.
pub open spec fn entries_bytes(s: Seq<EntryView>) -> nat
    decreases s.len(),
{
    if s.len() == 0 {
        0
    } else {
        entries_bytes(s.drop_last()) + s.last().pixels.len()
    }
}

proof fn lemma_entries_bytes_remove(s: Seq<EntryView>, p: int)
    requires
        0 <= p < s.len(),
    ensures
        entries_bytes(s.remove(p)) + s[p].pixels.len() == entries_bytes(s),
    decreases s.len(),
{
    if p == s.len() - 1 {
        assert(s.remove(p) =~= s.drop_last());
    } else {
        lemma_entries_bytes_remove(s.drop_last(), p);
        assert(s.remove(p).drop_last() =~= s.drop_last().remove(p));
        assert(s.remove(p).last() == s.last());
    }
}

proof fn lemma_eviction_keeps_byte_count(v: CacheView)
    requires
        v.bytes == entries_bytes(v.entries),
    ensures
        evicted_to_budget(v).bytes == entries_bytes(evicted_to_budget(v).entries),
    decreases v.entries.len(),
{
    if v.bytes > v.budget_bytes && v.entries.len() > 1 {
        let p = oldest_position(v.entries, 1, 0);
        lemma_oldest_position_bounds(v.entries, 1, 0);
        lemma_entries_bytes_remove(v.entries, p);
        lemma_eviction_keeps_byte_count(
            CacheView {
                entries: v.entries.remove(p),
                bytes: sat_sub_usize(v.bytes as int, v.entries[p].pixels.len() as int),
                evictions: sat_add_u64(v.evictions as int, 1),
                ..v
            },
        );
    }
}

/// While the bytes of the entries fit in a `usize`, the cache's byte count is their sum:
/// a store adds the new entry's bytes and takes out those of the entry it replaces, and
/// eviction and lookups keep the sum.
pub proof fn law_byte_count_is_the_entries_sum(v: CacheView, entry: EntryView, budget_bytes: usize, key: Seq<char>)
    requires
        v.bytes == entries_bytes(v.entries),
        entries_bytes(v.entries) + entry.pixels.len() <= usize::MAX,
    ensures
        stored(v, entry, budget_bytes).bytes == entries_bytes(stored(v, entry, budget_bytes).entries),
        evicted_to_budget(v).bytes == entries_bytes(evicted_to_budget(v).entries),
        touched(v, key).bytes == entries_bytes(touched(v, key).entries),
{
    lemma_eviction_keeps_byte_count(v);
    let p = key_position(v.entries, entry.key, 0);
    lemma_key_position_bounds(v.entries, entry.key, 0);
    let tick = sat_add_u64(v.tick as int, 1);
    let fresh = EntryView { last_used: tick, ..entry };
    let (kept, kept_bytes) = if p < v.entries.len() {
        lemma_entries_bytes_remove(v.entries, p);
        (v.entries.remove(p), sat_sub_usize(v.bytes as int, v.entries[p].pixels.len() as int))
    } else {
        (v.entries, v.bytes)
    };
    assert(kept_bytes == entries_bytes(kept));
    let pushed = kept.push(fresh);
    assert(pushed.drop_last() =~= kept);
    assert(entries_bytes(pushed) == entries_bytes(kept) + entry.pixels.len());
    let bytes = entry.pixels.len() as int;
    let budget = if budget_bytes >= bytes {
        budget_bytes as int
    } else {
        bytes
    };
    let budget = if budget >= 1 {
        budget
    } else {
        1
    };
    let before = CacheView {
        entries: pushed,
        bytes: sat_add_usize(kept_bytes as int, bytes),
        tick,
        budget_bytes: budget as usize,
        stores: sat_add_u64(v.stores as int, 1),
        ..v
    };
    lemma_eviction_keeps_byte_count(before);
    assert(stored(v, entry, budget_bytes) == evicted_to_budget(before));
    let q = key_position(v.entries, key, 0);
    lemma_key_position_bounds(v.entries, key, 0);
    if q < v.entries.len() {
        let t = touched(v, key);
        lemma_entries_bytes_remove(v.entries, q);
        lemma_entries_bytes_remove(t.entries, q);
        assert(t.entries.remove(q) =~= v.entries.remove(q));
    }
}

/// The cache after looking up `key`: a hit marks the entry as just used.
pub open spec fn touched(v: CacheView, key: Seq<char>) -> CacheView {
    let tick = sat_add_u64(v.tick as int, 1);
    let p = key_position(v.entries, key, 0);
    if p < v.entries.len() {
        CacheView {
            entries: v.entries.update(p, EntryView { last_used: tick, ..v.entries[p] }),
            tick,
            hits: sat_add_u64(v.hits as int, 1),
            ..v
        }
    } else {
        CacheView { tick, misses: sat_add_u64(v.misses as int, 1), ..v }
    }
}

/// The cache after storing `entry` under its key with budget `budget_bytes`: the budget
/// grows to hold at least the new entry, a previous entry with the key is replaced, and
/// older entries are evicted to fit.
pub open spec fn stored(v: CacheView, entry: EntryView, budget_bytes: usize) -> CacheView {
    let bytes = entry.pixels.len() as int;
    let budget = if budget_bytes >= bytes {
        budget_bytes as int
    } else {
        bytes
    };
    let budget = if budget >= 1 {
        budget
    } else {
        1
    };
    let p = key_position(v.entries, entry.key, 0);
    let (kept, kept_bytes) = if p < v.entries.len() {
        (v.entries.remove(p), sat_sub_usize(v.bytes as int, v.entries[p].pixels.len() as int))
    } else {
        (v.entries, v.bytes)
    };
    let tick = sat_add_u64(v.tick as int, 1);
    evicted_to_budget(
        CacheView {
            entries: kept.push(EntryView { last_used: tick, ..entry }),
            bytes: sat_add_usize(kept_bytes as int, bytes),
            tick,
            budget_bytes: budget as usize,
            stores: sat_add_u64(v.stores as int, 1),
            ..v
        },
    )
}

/// Whether `id` starts with `prefix`.
pub open spec fn has_prefix(id: Seq<char>, prefix: Seq<char>) -> bool {
    prefix.len() <= id.len() && id.take(prefix.len() as int) == prefix
}

/// The entries whose id starts with `prefix`.
pub open spec fn prefix_count(s: Seq<EntryView>, prefix: Seq<char>) -> int
    decreases s.len(),
{
    if s.len() == 0 {
        0
    } else {
        prefix_count(s.drop_last(), prefix) + if has_prefix(s.last().id, prefix) {
            1int
        } else {
            0int
        }
    }
}

/// The bytes of the entries whose id starts with `prefix`.
pub open spec fn prefix_bytes(s: Seq<EntryView>, prefix: Seq<char>) -> int
    decreases s.len(),
{
    if s.len() == 0 {
        0
    } else {
        prefix_bytes(s.drop_last(), prefix) + if has_prefix(s.last().id, prefix) {
            s.last().pixels.len() as int
        } else {
            0int
        }
    }
}

/// The ids that start with `prefix`, in entry order.
pub open spec fn prefix_ids(s: Seq<EntryView>, prefix: Seq<char>) -> Seq<Seq<char>>
    decreases s.len(),
{
    if s.len() == 0 {
        Seq::empty()
    } else if has_prefix(s.last().id, prefix) {
        prefix_ids(s.drop_last(), prefix).push(s.last().id)
    } else {
        prefix_ids(s.drop_last(), prefix)
    }
}

/// The position of the first name above `x`, searching from `i`.
pub open spec fn name_position(s: Seq<Seq<char>>, x: Seq<char>, i: int) -> int
    decreases s.len() - i,
{
    if i >= s.len() {
        s.len() as int
    } else if name_lt(x, s[i]) {
        i
    } else {
        name_position(s, x, i + 1)
    }
}

/// Names in ascending order of their UTF-8 bytes.
pub open spec fn sorted_names(s: Seq<Seq<char>>) -> Seq<Seq<char>>
    decreases s.len(),
{
    if s.len() == 0 {
        Seq::empty()
    } else {
        let t = sorted_names(s.drop_last());
        let p = name_position(t, s.last(), 0);
        t.take(p).push(s.last()) + t.skip(p)
    }
}

/// No name comes after one that is below it.
pub open spec fn names_ascending(s: Seq<Seq<char>>) -> bool {
    forall|i: int, j: int| 0 <= i < j < s.len() ==> !name_lt(#[trigger] s[j], #[trigger] s[i])
}

proof fn lemma_name_position(s: Seq<Seq<char>>, x: Seq<char>, i: int)
    requires
        0 <= i <= s.len(),
    ensures
        i <= name_position(s, x, i) <= s.len(),
        forall|j: int| i <= j < name_position(s, x, i) ==> !name_lt(x, #[trigger] s[j]),
        name_position(s, x, i) < s.len() ==> name_lt(x, s[name_position(s, x, i)]),
    decreases s.len() - i,
{
    if i < s.len() && !name_lt(x, s[i]) {
        lemma_name_position(s, x, i + 1);
    }
}

/// Sorting names puts them in ascending order and keeps each of them, as often as it
/// occurs.
pub proof fn law_sorted_names_ascending_permutation(s: Seq<Seq<char>>)
    ensures
        names_ascending(sorted_names(s)),
        sorted_names(s).to_multiset() == s.to_multiset(),
    decreases s.len(),
{
    broadcast use vstd::seq_lib::group_to_multiset_ensures;

    if s.len() == 0 {
        assert(sorted_names(s) =~= s);
    } else {
        let t = sorted_names(s.drop_last());
        let x = s.last();
        law_sorted_names_ascending_permutation(s.drop_last());
        lemma_name_position(t, x, 0);
        let p = name_position(t, x, 0);
        let r = sorted_names(s);
        assert(r =~= t.insert(p, x));
        assert(s =~= s.drop_last().push(x));
        assert forall|j: int| p <= j < t.len() implies name_lt(x, #[trigger] t[j]) by {
            let a = encode_utf8(x);
            let b = encode_utf8(t[p]);
            let c = encode_utf8(t[j]);
            if j > p {
                lemma_bytes_lt_total(b, c);
                if b != c {
                    if name_lt(t[j], t[p]) {
                        assert(!name_lt(t[j], t[p]));
                    }
                    lemma_bytes_lt_transitive(a, b, c);
                }
            }
        }
        assert forall|i: int, j: int| 0 <= i < j < r.len() implies !name_lt(#[trigger] r[j], #[trigger] r[i]) by {
            if j < p {
                assert(r[i] == t[i] && r[j] == t[j]);
            } else if j == p {
                assert(r[i] == t[i] && r[j] == x);
                if name_lt(x, t[i]) {
                    assert(!name_lt(x, t[i]));
                }
            } else if i < p {
                assert(r[i] == t[i] && r[j] == t[j - 1]);
            } else if i == p {
                assert(r[i] == x && r[j] == t[j - 1]);
                lemma_bytes_lt_asymmetric(encode_utf8(x), encode_utf8(t[j - 1]));
            } else {
                assert(r[i] == t[i - 1] && r[j] == t[j - 1]);
            }
        }
    }
}

/// The marker in the id of a tile of a scrolled raster.
pub open spec fn scroll_tile_marker() -> Seq<char> {
    seq!['.', 'r', 'a', 's', 't', 'e', 'r', '.', 't', 'i', 'l', 'e', '.']
}

pub open spec fn contains_seq(s: Seq<char>, pat: Seq<char>) -> bool {
    exists|i: int| 0 <= i && i + pat.len() <= s.len() && #[trigger] s.subrange(i, i + pat.len()) == pat
}

/// The entries that are not tiles of a scrolled raster.
pub open spec fn non_tile_entries(s: Seq<EntryView>) -> Seq<EntryView>
    decreases s.len(),
{
    if s.len() == 0 {
        Seq::empty()
    } else if contains_seq(s.last().id, scroll_tile_marker()) {
        non_tile_entries(s.drop_last())
    } else {
        non_tile_entries(s.drop_last()).push(s.last())
    }
}

/// The bytes of the tiles of scrolled rasters, saturated at `usize::MAX`.
pub open spec fn tile_bytes(s: Seq<EntryView>) -> usize
    decreases s.len(),
{
    if s.len() == 0 {
        0
    } else if contains_seq(s.last().id, scroll_tile_marker()) {
        sat_add_usize(tile_bytes(s.drop_last()) as int, s.last().pixels.len() as int)
    } else {
        tile_bytes(s.drop_last())
    }
}

impl StaticLayerMemoryCache {
    #[verifier::type_invariant]
    closed spec fn entries_consistent(self) -> bool {
        &&& keys_distinct(entry_views(self.entries@))
        &&& forall|i: int|
            0 <= i < self.entries@.len() ==> (#[trigger] self.entries@[i]).bytes
                == self.entries@[i].bitmap.pixels@.len()
        &&& forall|i: int| 0 <= i < self.entries@.len() ==> #[trigger] self.entries@[i].last_used <= self.tick
    }

    pub fn new() -> (r: StaticLayerMemoryCache)
        ensures
            r@ == (CacheView {
                entries: Seq::empty(),
                bytes: 0,
                tick: 0,
                budget_bytes: 0,
                hits: 0,
                misses: 0,
                stores: 0,
                evictions: 0,
            }),
    {
        let r = StaticLayerMemoryCache {
            entries: Vec::new(),
            bytes: 0,
            tick: 0,
            budget_bytes: 0,
            hits: 0,
            misses: 0,
            stores: 0,
            evictions: 0,
        };
        assert(entry_views(r.entries@) =~= Seq::<EntryView>::empty());
        r
    }

    /// Empties the cache and resets every counter.
    pub fn clear(&mut self)
        ensures
            final(self)@ == (CacheView {
                entries: Seq::empty(),
                bytes: 0,
                tick: 0,
                budget_bytes: 0,
                hits: 0,
                misses: 0,
                stores: 0,
                evictions: 0,
            }),
    {
        *self = StaticLayerMemoryCache::new();
    }

    pub fn stats(&self) -> (r: StaticLayerMemoryCacheStats)
        ensures
            r == (StaticLayerMemoryCacheStats {
                entry_count: self@.entries.len() as usize,
                bytes: self@.bytes,
                budget_bytes: self@.budget_bytes,
                hits: self@.hits,
                misses: self@.misses,
                stores: self@.stores,
                evictions: self@.evictions,
            }),
    {
        StaticLayerMemoryCacheStats {
            entry_count: self.entries.len(),
            bytes: self.bytes,
            budget_bytes: self.budget_bytes,
            hits: self.hits,
            misses: self.misses,
            stores: self.stores,
            evictions: self.evictions,
        }
    }
}

/// Whether `s` starts with `prefix`.
fn chars_have_prefix(s: &Vec<char>, prefix: &Vec<char>) -> (r: bool)
    ensures
        r == has_prefix(s@, prefix@),
{
    if prefix.len() > s.len() {
        return false;
    }
    let head = slice_chars(s, 0, prefix.len());
    assert(head@ =~= s@.take(prefix@.len() as int));
    chars_equal(&head, prefix)
}

/// Whether `pat` occurs in `s`.
fn chars_contain(s: &Vec<char>, pat: &Vec<char>) -> (r: bool)
    ensures
        r == contains_seq(s@, pat@),
{
    if pat.len() > s.len() {
        return false;
    }
    if pat.len() == 0 {
        assert(s@.subrange(0, 0 + pat@.len() as int) =~= pat@);
        return true;
    }
    let m = pat.len();
    let len = s.len();
    let last = len - m;
    let mut i: usize = 0;
    while i <= last
        invariant
            m == pat@.len(),
            1 <= m <= s@.len(),
            len == s@.len(),
            last == len - m,
            i <= last + 1,
            forall|j: int| 0 <= j < i ==> #[trigger] s@.subrange(j, j + m) != pat@,
        decreases last + 1 - i,
    {
        assert(i + m <= s@.len());
        let piece = slice_chars(s, i, i + m);
        if chars_equal(&piece, pat) {
            assert(s@.subrange(i as int, i + pat@.len()) == pat@);
            return true;
        }
        i = i + 1;
    }
    assert forall|j: int| 0 <= j && j + pat@.len() <= s@.len() implies #[trigger] s@.subrange(
        j,
        j + pat@.len(),
    ) != pat@ by {
        assert(j < i);
    }
    false
}

fn name_before(a: &str, b: &str) -> (r: bool)
    ensures
        r == name_lt(a@, b@),
{
    match order_names(a, b) {
        NameOrder::Less => true,
        _ => false,
    }
}

proof fn lemma_prefix_sums_nonneg(s: Seq<EntryView>, prefix: Seq<char>)
    ensures
        prefix_count(s, prefix) >= 0,
        prefix_bytes(s, prefix) >= 0,
    decreases s.len(),
{
    if s.len() > 0 {
        lemma_prefix_sums_nonneg(s.drop_last(), prefix);
    }
}

pub open spec fn string_views(s: Seq<String>) -> Seq<Seq<char>> {
    s.map_values(|x: String| x@)
}

/// Inserts `x` after every name not above it.
fn insert_name(sorted: &mut Vec<String>, x: String)
    ensures
        string_views(final(sorted)@) == ({
            let t = string_views(old(sorted)@);
            let p = name_position(t, x@, 0);
            t.take(p).push(x@) + t.skip(p)
        }),
{
    let ghost t = string_views(sorted@);
    let mut p: usize = 0;
    while p < sorted.len() && !name_before(x.as_str(), sorted[p].as_str())
        invariant
            p <= sorted@.len(),
            t == string_views(sorted@),
            name_position(t, x@, 0) == name_position(t, x@, p as int),
        decreases sorted@.len() - p,
    {
        p = p + 1;
    }
    let ghost before = sorted@;
    sorted.insert(p, x);
    assert(string_views(sorted@) =~= t.take(p as int).push(x@) + t.skip(p as int));
}

impl StaticLayerMemoryCache {
    /// The number and bytes of the entries whose id starts with `id_prefix`, each
    /// saturated at `usize::MAX`.
    pub fn prefix_stats(&self, id_prefix: &str) -> (r: StaticLayerMemoryCachePrefixStats)
        ensures
            r.entry_count as int == min_int(prefix_count(self@.entries, id_prefix@), usize::MAX as int),
            r.bytes as int == min_int(prefix_bytes(self@.entries, id_prefix@), usize::MAX as int),
    {
        proof {
            use_type_invariant(self);
        }
        let prefix = chars_of(id_prefix);
        let ghost all = self@.entries;
        let mut count: usize = 0;
        let mut bytes: usize = 0;
        let mut i: usize = 0;
        while i < self.entries.len()
            invariant
                i <= self.entries@.len(),
                all == entry_views(self.entries@),
                prefix@ == id_prefix@,
                forall|k: int|
                    0 <= k < self.entries@.len() ==> (#[trigger] self.entries@[k]).bytes
                        == self.entries@[k].bitmap.pixels@.len(),
                count as int == min_int(prefix_count(all.take(i as int), prefix@), usize::MAX as int),
                bytes as int == min_int(prefix_bytes(all.take(i as int), prefix@), usize::MAX as int),
            decreases self.entries@.len() - i,
        {
            proof {
                assert(all.take(i + 1).drop_last() =~= all.take(i as int));
                lemma_prefix_sums_nonneg(all.take(i as int), prefix@);
            }
            let id = chars_of(self.entries[i].id.as_str());
            if chars_have_prefix(&id, &prefix) {
                count = count.saturating_add(1);
                bytes = bytes.saturating_add(self.entries[i].bytes);
            }
            i = i + 1;
        }
        assert(all.take(i as int) =~= all);
        StaticLayerMemoryCachePrefixStats { entry_count: count, bytes }
    }

    /// The ids of the entries that start with `id_prefix`, in ascending order.
    pub fn prefix_entry_ids(&self, id_prefix: &str) -> (r: Vec<String>)
        ensures
            string_views(r@) == sorted_names(prefix_ids(self@.entries, id_prefix@)),
    {
        let prefix = chars_of(id_prefix);
        let ghost all = self@.entries;
        let mut ids: Vec<String> = Vec::new();
        let mut i: usize = 0;
        while i < self.entries.len()
            invariant
                i <= self.entries@.len(),
                all == entry_views(self.entries@),
                prefix@ == id_prefix@,
                string_views(ids@) == prefix_ids(all.take(i as int), prefix@),
            decreases self.entries@.len() - i,
        {
            assert(all.take(i + 1).drop_last() =~= all.take(i as int));
            let id = chars_of(self.entries[i].id.as_str());
            if chars_have_prefix(&id, &prefix) {
                let ghost before = string_views(ids@);
                ids.push(self.entries[i].id.clone());
                assert(string_views(ids@) =~= before.push(all[i as int].id));
            }
            i = i + 1;
        }
        assert(all.take(i as int) =~= all);
        let ghost found = string_views(ids@);
        let n = ids.len();
        let mut input = ids;
        let mut sorted: Vec<String> = Vec::new();
        let mut j: usize = 0;
        while j < n
            invariant
                j <= n,
                n == found.len(),
                string_views(input@) == found.skip(j as int),
                input@.len() == n - j,
                string_views(sorted@) == sorted_names(found.take(j as int)),
            decreases n - j,
        {
            let ghost old_input = input@;
            assert(string_views(old_input)[0] == found.skip(j as int)[0]);
            let x = input.remove(0);
            assert(found.take(j + 1).drop_last() =~= found.take(j as int));
            assert(x@ == found[j as int]);
            insert_name(&mut sorted, x);
            assert(input@ =~= old_input.subrange(1, old_input.len() as int));
            assert(string_views(input@) =~= found.skip(j + 1)) by {
                assert forall|k: int| 0 <= k < string_views(input@).len() implies string_views(input@)[k]
                    == found.skip(j + 1)[k] by {
                    assert(string_views(input@)[k] == old_input[k + 1]@);
                    assert(string_views(old_input)[k + 1] == found.skip(j as int)[k + 1]);
                }
            }
            j = j + 1;
        }
        assert(found.take(j as int) =~= found);
        sorted
    }

    /// The position of the entry with `key`, if there is one.
    fn find(&self, key: &str) -> (r: Option<usize>)
        ensures
            match r {
                Some(p) => p == key_position(self@.entries, key@, 0) && p < self@.entries.len(),
                None => key_position(self@.entries, key@, 0) == self@.entries.len(),
            },
    {
        let ghost all = self@.entries;
        let mut i: usize = 0;
        while i < self.entries.len()
            invariant
                i <= self.entries@.len(),
                all == entry_views(self.entries@),
                key_position(all, key@, 0) == key_position(all, key@, i as int),
            decreases self.entries@.len() - i,
        {
            if str_equal(self.entries[i].key.as_str(), key) {
                return Some(i);
            }
            i = i + 1;
        }
        None
    }
}

proof fn lemma_remove_keeps_distinct(s: Seq<EntryView>, p: int)
    requires
        keys_distinct(s),
        0 <= p < s.len(),
    ensures
        keys_distinct(s.remove(p)),
{
    let r = s.remove(p);
    assert forall|i: int, j: int| 0 <= i < j < r.len() implies r[i].key != r[j].key by {
        let a = if i < p { i } else { i + 1 };
        let b = if j < p { j } else { j + 1 };
        assert(r[i] == s[a]);
        assert(r[j] == s[b]);
    }
}

impl StaticLayerMemoryCache {
    /// Looks `key` up, counting a hit or a miss; a hit marks the entry as just used.
    pub fn touch(&mut self, key: &str) -> (hit: bool)
        ensures
            final(self)@ == touched(old(self)@, key@),
            hit == (key_position(old(self)@.entries, key@, 0) < old(self)@.entries.len()),
    {
        proof {
            use_type_invariant(&*self);
        }
        self.tick = self.tick.saturating_add(1);
        let tick = self.tick;
        match self.find(key) {
            None => {
                self.misses = self.misses.saturating_add(1);
                false
            },
            Some(p) => {
                self.hits = self.hits.saturating_add(1);
                let ghost before = self.entries@;
                let mut entries = Vec::new();
                std::mem::swap(&mut entries, &mut self.entries);
                entries[p].last_used = tick;
                assert(entry_views(entries@) =~= entry_views(before).update(
                    p as int,
                    EntryView { last_used: tick, ..entry_views(before)[p as int] },
                ));
                assert forall|i: int| 0 <= i < entries@.len() implies (#[trigger] entries@[i]).bytes
                    == entries@[i].bitmap.pixels@.len() by {
                    assert(entries@[i].bytes == before[i].bytes);
                }
                self.entries = entries;
                true
            },
        }
    }

    /// The bitmap stored under `key`, if any.
    pub fn bitmap(&self, key: &str) -> (r: Option<&StaticLayerBitmap>)
        ensures
            match r {
                Some(b) => {
                    let p = key_position(self@.entries, key@, 0);
                    &&& p < self@.entries.len()
                    &&& b.width == self@.entries[p].width
                    &&& b.height == self@.entries[p].height
                    &&& b.pixels@ == self@.entries[p].pixels
                },
                None => key_position(self@.entries, key@, 0) == self@.entries.len(),
            },
    {
        match self.find(key) {
            Some(p) => Some(&self.entries[p].bitmap),
            None => None,
        }
    }

    /// The position of the first least recently used entry.
    fn oldest(&self) -> (r: usize)
        requires
            self@.entries.len() > 0,
        ensures
            r == oldest_position(self@.entries, 1, 0),
    {
        let ghost all = self@.entries;
        let mut best: usize = 0;
        let mut i: usize = 1;
        while i < self.entries.len()
            invariant
                1 <= i <= self.entries@.len(),
                best < self.entries@.len(),
                all == entry_views(self.entries@),
                oldest_position(all, 1, 0) == oldest_position(all, i as int, best as int),
            decreases self.entries@.len() - i,
        {
            if self.entries[i].last_used < self.entries[best].last_used {
                best = i;
            }
            i = i + 1;
        }
        best
    }

    /// Removes the entry at `p`, returning its bytes.
    fn remove_entry(&mut self, p: usize) -> (bytes: usize)
        requires
            p < old(self)@.entries.len(),
        ensures
            final(self)@ == (CacheView { entries: old(self)@.entries.remove(p as int), ..old(self)@ }),
            bytes == old(self)@.entries[p as int].pixels.len(),
    {
        proof {
            use_type_invariant(&*self);
        }
        let ghost before = self.entries@;
        let mut entries = Vec::new();
        std::mem::swap(&mut entries, &mut self.entries);
        let removed = entries.remove(p);
        proof {
            assert(entry_views(entries@) =~= entry_views(before).remove(p as int));
            lemma_remove_keeps_distinct(entry_views(before), p as int);
            assert forall|i: int| 0 <= i < entries@.len() implies (#[trigger] entries@[i]).bytes
                == entries@[i].bitmap.pixels@.len() by {
                let k = if i < p { i } else { i + 1 };
                assert(entries@[i] == before[k]);
            }
            assert(removed == before[p as int]);
        }
        self.entries = entries;
        removed.bytes
    }

    /// Evicts least recently used entries until the bytes fit the budget, keeping one.
    pub fn evict_to_budget(&mut self)
        ensures
            final(self)@ == evicted_to_budget(old(self)@),
    {
        while self.bytes > self.budget_bytes && self.entries.len() > 1
            invariant
                evicted_to_budget(self@) == evicted_to_budget(old(self)@),
            decreases self@.entries.len(),
        {
            let p = self.oldest();
            proof {
                lemma_oldest_position_bounds(self@.entries, 1, 0);
            }
            let bytes = self.remove_entry(p);
            proof {
                use_type_invariant(&*self);
            }
            self.bytes = self.bytes.saturating_sub(bytes);
            self.evictions = self.evictions.saturating_add(1);
        }
    }

    /// Stores `bitmap` under `key` for the layer `id`, with `budget_bytes` as the budget
    /// (grown to hold at least this bitmap), then evicts to fit.
    pub fn store(&mut self, id: &str, key: String, bitmap: StaticLayerBitmap, budget_bytes: usize)
        ensures
            final(self)@ == stored(
                old(self)@,
                EntryView {
                    key: key@,
                    id: id@,
                    last_used: 0,
                    width: bitmap.width,
                    height: bitmap.height,
                    pixels: bitmap.pixels@,
                },
                budget_bytes,
            ),
            final(self)@.entries.len() > 0,
            final(self)@.entries.last() == (EntryView {
                key: key@,
                id: id@,
                last_used: sat_add_u64(old(self)@.tick as int, 1),
                width: bitmap.width,
                height: bitmap.height,
                pixels: bitmap.pixels@,
            }),
    {
        proof {
            use_type_invariant(&*self);
            assert forall|i: int| 0 <= i < self@.entries.len() implies #[trigger] self@.entries[i].last_used
                <= self@.tick by {
                assert(self@.entries[i].last_used == self.entries@[i].last_used);
            }
            law_store_keeps_the_new_entry(
                self@,
                EntryView {
                    key: key@,
                    id: id@,
                    last_used: 0,
                    width: bitmap.width,
                    height: bitmap.height,
                    pixels: bitmap.pixels@,
                },
                budget_bytes,
                key@,
            );
        }
        let bytes = bitmap.byte_len();
        let budget = if budget_bytes >= bytes {
            budget_bytes
        } else {
            bytes
        };
        self.budget_bytes = if budget >= 1 {
            budget
        } else {
            1
        };
        self.stores = self.stores.saturating_add(1);
        let ghost start = self@.entries;
        proof {
            lemma_key_position_bounds(start, key@, 0);
        }
        match self.find(key.as_str()) {
            Some(p) => {
                let previous = self.remove_entry(p);
                proof {
                    use_type_invariant(&*self);
                    assert forall|j: int| 0 <= j < self@.entries.len() implies self@.entries[j].key
                        != key@ by {
                        let k = if j < p { j } else { j + 1 };
                        assert(self@.entries[j] == start[k]);
                        assert(start[p as int].key == key@);
                    }
                }
                self.bytes = self.bytes.saturating_sub(previous);
            },
            None => {},
        }
        assert(forall|j: int| 0 <= j < self@.entries.len() ==> self@.entries[j].key != key@);
        let ghost key_view = key@;
        self.tick = self.tick.saturating_add(1);
        let entry = StaticLayerMemoryEntry {
            key,
            id: id.to_owned(),
            last_used: self.tick,
            bytes,
            bitmap,
        };
        self.bytes = self.bytes.saturating_add(bytes);
        proof {
            use_type_invariant(&*self);
        }
        let ghost before = self.entries@;
        let mut entries = Vec::new();
        std::mem::swap(&mut entries, &mut self.entries);
        entries.push(entry);
        proof {
            assert(entry_views(entries@) =~= entry_views(before).push(entry.view_of()));
            assert forall|i: int, j: int| 0 <= i < j < entry_views(entries@).len() implies entry_views(
                entries@,
            )[i].key != entry_views(entries@)[j].key by {
                if j == before.len() {
                    assert(entry_views(before)[i].key != key_view);
                }
            }
            assert forall|i: int| 0 <= i < entries@.len() implies (#[trigger] entries@[i]).bytes
                == entries@[i].bitmap.pixels@.len() by {
                if i < before.len() {
                    assert(entries@[i] == before[i]);
                }
            }
        }
        self.entries = entries;
        self.evict_to_budget();
    }
}

impl StaticLayerMemoryCache {
    /// Drops the tiles of scrolled rasters, keeping every other entry and the counters.
    pub fn clear_scroll_raster(&mut self)
        ensures
            final(self)@ == (CacheView {
                entries: non_tile_entries(old(self)@.entries),
                bytes: sat_sub_usize(old(self)@.bytes as int, tile_bytes(old(self)@.entries) as int),
                ..old(self)@
            }),
    {
        proof {
            use_type_invariant(&*self);
        }
        let marker = chars_of(".raster.tile.");
        proof {
            reveal_strlit(".raster.tile.");
        }
        assert(marker@ =~= scroll_tile_marker());
        let mut input = Vec::new();
        std::mem::swap(&mut input, &mut self.entries);
        let ghost orig = input@;
        let ghost all = entry_views(orig);
        let n = input.len();
        let mut kept: Vec<StaticLayerMemoryEntry> = Vec::new();
        let ghost mut idx: Seq<int> = Seq::empty();
        let mut removed: usize = 0;
        let mut i: usize = 0;
        while i < n
            invariant
                i <= n,
                n == orig.len(),
                all == entry_views(orig),
                marker@ == scroll_tile_marker(),
                keys_distinct(all),
                forall|k: int| 0 <= k < orig.len() ==> (#[trigger] orig[k]).bytes == orig[k].bitmap.pixels@.len(),
                forall|k: int| 0 <= k < orig.len() ==> #[trigger] orig[k].last_used <= self.tick,
                input@ == orig.skip(i as int),
                input@.len() == n - i,
                entry_views(kept@) == non_tile_entries(all.take(i as int)),
                removed == tile_bytes(all.take(i as int)),
                idx.len() == kept@.len(),
                forall|a: int| 0 <= a < idx.len() ==> 0 <= #[trigger] idx[a] < i && kept@[a] == orig[idx[a]],
                forall|a: int, b: int| 0 <= a < b < idx.len() ==> #[trigger] idx[a] < #[trigger] idx[b],
            decreases n - i,
        {
            let ghost old_input = input@;
            let e = input.remove(0);
            assert(e == orig[i as int]);
            assert(all.take(i + 1).drop_last() =~= all.take(i as int));
            assert(input@ =~= orig.skip(i + 1));
            let id = chars_of(e.id.as_str());
            if chars_contain(&id, &marker) {
                removed = removed.saturating_add(e.bytes);
            } else {
                let ghost before = kept@;
                kept.push(e);
                proof {
                    idx = idx.push(i as int);
                    assert(entry_views(kept@) =~= entry_views(before).push(e.view_of()));
                }
            }
            i = i + 1;
        }
        assert(all.take(i as int) =~= all);
        proof {
            assert forall|a: int, b: int| 0 <= a < b < entry_views(kept@).len() implies entry_views(
                kept@,
            )[a].key != entry_views(kept@)[b].key by {
                assert(kept@[a] == orig[idx[a]]);
                assert(kept@[b] == orig[idx[b]]);
                assert(all[idx[a]].key != all[idx[b]].key);
            }
            assert forall|a: int| 0 <= a < kept@.len() implies (#[trigger] kept@[a]).bytes
                == kept@[a].bitmap.pixels@.len() by {
                assert(kept@[a] == orig[idx[a]]);
            }
            assert forall|a: int| 0 <= a < kept@.len() implies #[trigger] kept@[a].last_used <= self.tick by {
                assert(kept@[a] == orig[idx[a]]);
            }
        }
        self.entries = kept;
        self.bytes = self.bytes.saturating_sub(removed);
    }
}

/// Whatever was stored, the cache ends within its budget or down to a single entry.
pub proof fn law_eviction_fits_budget(v: CacheView)
    ensures
        ({
            let w = evicted_to_budget(v);
            &&& w.bytes <= w.budget_bytes || w.entries.len() <= 1
            &&& w.budget_bytes == v.budget_bytes
            &&& w.entries.len() <= v.entries.len()
        }),
    decreases v.entries.len(),
{
    if v.bytes > v.budget_bytes && v.entries.len() > 1 {
        let p = oldest_position(v.entries, 1, 0);
        lemma_oldest_position_bounds(v.entries, 1, 0);
        law_eviction_fits_budget(
            CacheView {
                entries: v.entries.remove(p),
                bytes: sat_sub_usize(v.bytes as int, v.entries[p].pixels.len() as int),
                evictions: sat_add_u64(v.evictions as int, 1),
                ..v
            },
        );
    }
}

/// Empties the cache and resets its counters.
pub fn clear_static_layer_memory_cache(cache: &mut StaticLayerMemoryCache)
    ensures
        final(cache)@ == (CacheView {
            entries: Seq::empty(),
            bytes: 0,
            tick: 0,
            budget_bytes: 0,
            hits: 0,
            misses: 0,
            stores: 0,
            evictions: 0,
        }),
{
    cache.clear();
}

/// The counters of the cache.
pub fn static_layer_memory_cache_stats(cache: &StaticLayerMemoryCache) -> (r: StaticLayerMemoryCacheStats)
    ensures
        r == (StaticLayerMemoryCacheStats {
            entry_count: cache@.entries.len() as usize,
            bytes: cache@.bytes,
            budget_bytes: cache@.budget_bytes,
            hits: cache@.hits,
            misses: cache@.misses,
            stores: cache@.stores,
            evictions: cache@.evictions,
        }),
{
    cache.stats()
}

/// The number and bytes of the entries whose id starts with `id_prefix`.
pub fn static_layer_memory_cache_stats_for_prefix(cache: &StaticLayerMemoryCache, id_prefix: &str) -> (r:
    StaticLayerMemoryCachePrefixStats)
    ensures
        r.entry_count as int == min_int(prefix_count(cache@.entries, id_prefix@), usize::MAX as int),
        r.bytes as int == min_int(prefix_bytes(cache@.entries, id_prefix@), usize::MAX as int),
{
    cache.prefix_stats(id_prefix)
}

/// The ids of the entries that start with `id_prefix`, in ascending order.
pub fn static_layer_memory_cache_entry_ids_for_prefix(cache: &StaticLayerMemoryCache, id_prefix: &str) -> (r:
    Vec<String>)
    ensures
        string_views(r@) == sorted_names(prefix_ids(cache@.entries, id_prefix@)),
{
    cache.prefix_entry_ids(id_prefix)
}

/// Drops the tiles of scrolled rasters from the cache.
pub fn clear_scroll_raster_memory_cache(cache: &mut StaticLayerMemoryCache)
    ensures
        final(cache)@ == (CacheView {
            entries: non_tile_entries(old(cache)@.entries),
            bytes: sat_sub_usize(old(cache)@.bytes as int, tile_bytes(old(cache)@.entries) as int),
            ..old(cache)@
        }),
{
    cache.clear_scroll_raster();
}

} // verus!
