use vstd::prelude::*;

use crate::geometry::{min_int, saturating_mul_usize};

verus! {

/// The smallest budget of the Direct2D bitmap cache.
pub const D2D_BITMAP_CACHE_MIN_BUDGET_BYTES: usize = 33554432;

/// How many viewports of pixels the Direct2D bitmap cache may hold.
pub const D2D_BITMAP_CACHE_VIEWPORT_MULTIPLIER: usize = 4;

pub open spec fn at_least_one(v: int) -> int {
    if v < 1 {
        1
    } else {
        v
    }
}

pub open spec fn max_int(a: int, b: int) -> int {
    if a < b {
        b
    } else {
        a
    }
}

/// The bytes of a `width` x `height` BGRA bitmap, each side at least one pixel,
/// saturated at `usize::MAX`.
pub open spec fn bitmap_bytes_of(width: int, height: int) -> int {
    min_int(at_least_one(width) * at_least_one(height) * 4, usize::MAX as int)
}

proof fn lemma_sat_mul_chain(a: int, b: int, c: int)
    requires
        a >= 0,
        b >= 0,
        c >= 0,
    ensures
        min_int(min_int(min_int(a * b, usize::MAX as int) * c, usize::MAX as int), usize::MAX as int)
            == min_int(a * b * c, usize::MAX as int),
{
    if a * b > usize::MAX && c > 0 {
        assert(a * b * c >= a * b) by (nonlinear_arith)
            requires
                a * b >= 0,
                c >= 1,
        ;
        assert(usize::MAX * c >= usize::MAX) by (nonlinear_arith)
            requires
                c >= 1,
        ;
    }
    if a * b > usize::MAX && c == 0 {
        assert(a * b * c == 0) by (nonlinear_arith)
            requires
                c == 0,
        ;
    }
}

/// The estimated bytes of a cached `width` x `height` bitmap.
pub fn estimated_bitmap_bytes(width: i32, height: i32) -> (r: usize)
    ensures
        r == bitmap_bytes_of(width as int, height as int),
{
    let w: usize = if width < 1 {
        1
    } else {
        width as usize
    };
    let h: usize = if height < 1 {
        1
    } else {
        height as usize
    };
    proof {
        lemma_sat_mul_chain(w as int, h as int, 4);
        assert(w * h >= 0) by (nonlinear_arith)
            requires
                w >= 0,
                h >= 0,
        ;
    }
    saturating_mul_usize(saturating_mul_usize(w, h), 4)
}

/// The budget of the Direct2D bitmap cache for a viewport: four viewports of BGRA
/// pixels, and never less than the minimum budget.
pub open spec fn bitmap_cache_budget_of(width: int, height: int) -> int {
    max_int(
        min_int(bitmap_bytes_of(width, height) * D2D_BITMAP_CACHE_VIEWPORT_MULTIPLIER, usize::MAX as int),
        D2D_BITMAP_CACHE_MIN_BUDGET_BYTES as int,
    )
}

pub fn d2d_bitmap_cache_budget(width: i32, height: i32) -> (r: usize)
    ensures
        r == bitmap_cache_budget_of(width as int, height as int),
{
    let bytes = saturating_mul_usize(
        estimated_bitmap_bytes(width, height),
        D2D_BITMAP_CACHE_VIEWPORT_MULTIPLIER,
    );
    if bytes < D2D_BITMAP_CACHE_MIN_BUDGET_BYTES {
        D2D_BITMAP_CACHE_MIN_BUDGET_BYTES
    } else {
        bytes
    }
}

/// The index of the first entry used after `tick`, or the length when there is none.
pub open spec fn insert_position<K>(s: Seq<(K, u64, usize)>, tick: u64, i: int) -> int
    decreases s.len() - i,
{
    if i >= s.len() {
        s.len() as int
    } else if s[i].1 > tick {
        i
    } else {
        insert_position(s, tick, i + 1)
    }
}

/// `x` placed after every entry used no later than it.
pub open spec fn insert_by_tick<K>(s: Seq<(K, u64, usize)>, x: (K, u64, usize)) -> Seq<(K, u64, usize)> {
    let p = insert_position(s, x.1, 0);
    s.take(p).push(x) + s.skip(p)
}

/// The entries ordered from least to most recently used; entries used at the same tick
/// keep their order.
pub open spec fn sorted_by_tick<K>(s: Seq<(K, u64, usize)>) -> Seq<(K, u64, usize)>
    decreases s.len(),
{
    if s.len() == 0 {
        Seq::empty()
    } else {
        insert_by_tick(sorted_by_tick(s.drop_last()), s.last())
    }
}

/// How many of the oldest entries are evicted: entries go, oldest first, until the bytes
/// fit the budget, but the last entry always stays.
pub open spec fn evicted_count<K>(sorted: Seq<(K, u64, usize)>, i: int, bytes: int, budget: int) -> int
    decreases sorted.len() - i,
{
    if i >= sorted.len() || bytes <= budget || sorted.len() - i <= 1 {
        i
    } else {
        evicted_count(
            sorted,
            i + 1,
            if bytes - sorted[i].2 < 0 {
                0
            } else {
                bytes - sorted[i].2
            },
            budget,
        )
    }
}

/// The keys to evict so that `bytes` fits `budget`, oldest first.
pub open spec fn eviction_plan_of<K>(entries: Seq<(K, u64, usize)>, bytes: int, budget: int) -> Seq<K> {
    let sorted = sorted_by_tick(entries);
    sorted.take(evicted_count(sorted, 0, bytes, budget)).map_values(|e: (K, u64, usize)| e.0)
}

proof fn lemma_insert_position_bounds<K>(s: Seq<(K, u64, usize)>, tick: u64, i: int)
    requires
        0 <= i <= s.len(),
    ensures
        i <= insert_position(s, tick, i) <= s.len(),
    decreases s.len() - i,
{
    if i < s.len() && s[i].1 <= tick {
        lemma_insert_position_bounds(s, tick, i + 1);
    }
}

proof fn lemma_evicted_count_bounds<K>(sorted: Seq<(K, u64, usize)>, i: int, bytes: int, budget: int)
    requires
        0 <= i <= sorted.len(),
    ensures
        i <= evicted_count(sorted, i, bytes, budget) <= sorted.len(),
    decreases sorted.len() - i,
{
    if !(i >= sorted.len() || bytes <= budget || sorted.len() - i <= 1) {
        lemma_evicted_count_bounds(
            sorted,
            i + 1,
            if bytes - sorted[i].2 < 0 {
                0
            } else {
                bytes - sorted[i].2
            },
            budget,
        );
    }
}

proof fn lemma_sorted_len<K>(s: Seq<(K, u64, usize)>)
    ensures
        sorted_by_tick(s).len() == s.len(),
    decreases s.len(),
{
    if s.len() > 0 {
        lemma_sorted_len(s.drop_last());
        lemma_insert_position_bounds(sorted_by_tick(s.drop_last()), s.last().1, 0);
    }
}

/// Inserts `x` into `sorted` after every entry used no later than it.
fn insert_entry<K>(sorted: &mut Vec<(K, u64, usize)>, x: (K, u64, usize))
    ensures
        final(sorted)@ == insert_by_tick(old(sorted)@, x),
{
    let ghost s = sorted@;
    let mut p: usize = 0;
    while p < sorted.len() && sorted[p].1 <= x.1
        invariant
            p <= s.len(),
            sorted@ == s,
            insert_position(s, x.1, 0) == insert_position(s, x.1, p as int),
        decreases s.len() - p,
    {
        p = p + 1;
    }
    sorted.insert(p, x);
    assert(sorted@ =~= s.take(p as int).push(x) + s.skip(p as int));
}

/// The keys of the cached bitmaps to evict, oldest first, so that `bytes` fits
/// `budget_bytes`; the most recently used entry is never evicted. Each entry is a key,
/// the tick it was last used at, and its bytes.
pub fn bitmap_cache_eviction_plan<K>(entries: Vec<(K, u64, usize)>, bytes: usize, budget_bytes: usize) -> (r: Vec<K>)
    ensures
        r@ == eviction_plan_of(entries@, bytes as int, budget_bytes as int),
{
    let ghost all = entries@;
    let n = entries.len();
    let mut input = entries;
    let mut sorted: Vec<(K, u64, usize)> = Vec::new();
    let mut i: usize = 0;
    while i < n
        invariant
            i <= n,
            n == all.len(),
            input@ == all.skip(i as int),
            sorted@ == sorted_by_tick(all.take(i as int)),
        decreases n - i,
    {
        let x = input.remove(0);
        assert(all.take(i + 1).drop_last() =~= all.take(i as int));
        assert(x == all[i as int]);
        insert_entry(&mut sorted, x);
        assert(input@ =~= all.skip(i + 1));
        i = i + 1;
    }
    assert(all.take(n as int) =~= all);
    let ghost order = sorted@;
    proof {
        lemma_sorted_len(all);
        lemma_evicted_count_bounds(order, 0, bytes as int, budget_bytes as int);
    }
    let mut evictions: Vec<K> = Vec::new();
    let ghost start_bytes = bytes as int;
    let mut left = bytes;
    let mut k: usize = 0;
    while k < n && left > budget_bytes && n - k > 1
        invariant
            k <= n,
            n == order.len(),
            sorted@ == order.skip(k as int),
            evicted_count(order, 0, start_bytes, budget_bytes as int) == evicted_count(
                order,
                k as int,
                left as int,
                budget_bytes as int,
            ),
            evictions@ == order.take(k as int).map_values(|e: (K, u64, usize)| e.0),
        decreases n - k,
    {
        let e = sorted.remove(0);
        assert(e == order[k as int]);
        left = left.saturating_sub(e.2);
        let ghost before = evictions@;
        evictions.push(e.0);
        assert(evictions@ =~= order.take(k + 1).map_values(|e: (K, u64, usize)| e.0));
        assert(sorted@ =~= order.skip(k + 1));
        k = k + 1;
    }
    evictions
}

pub open spec fn tick_ordered<K>(s: Seq<(K, u64, usize)>) -> bool {
    forall|a: int, b: int| 0 <= a < b < s.len() ==> s[a].1 <= s[b].1
}

proof fn lemma_insert_position_props<K>(s: Seq<(K, u64, usize)>, tick: u64, i: int)
    requires
        0 <= i <= s.len(),
    ensures
        forall|j: int| i <= j < insert_position(s, tick, i) ==> s[j].1 <= tick,
        insert_position(s, tick, i) < s.len() ==> s[insert_position(s, tick, i)].1 > tick,
    decreases s.len() - i,
{
    if i < s.len() && s[i].1 <= tick {
        lemma_insert_position_props(s, tick, i + 1);
    }
}

proof fn lemma_sorted_by_tick_is_ordered<K>(s: Seq<(K, u64, usize)>)
    ensures
        tick_ordered(sorted_by_tick(s)),
        sorted_by_tick(s).len() == s.len(),
    decreases s.len(),
{
    lemma_sorted_len(s);
    if s.len() > 0 {
        let t = sorted_by_tick(s.drop_last());
        let x = s.last();
        lemma_sorted_by_tick_is_ordered(s.drop_last());
        lemma_insert_position_bounds(t, x.1, 0);
        lemma_insert_position_props(t, x.1, 0);
        let p = insert_position(t, x.1, 0);
        let r = t.take(p).push(x) + t.skip(p);
        assert(sorted_by_tick(s) == r);
        assert forall|a: int| 0 <= a < r.len() implies #[trigger] r[a] == (if a < p {
            t[a]
        } else if a == p {
            x
        } else {
            t[a - 1]
        }) by {
            if a < p {
                assert(r[a] == t.take(p)[a]);
            } else if a > p {
                assert(r[a] == t.skip(p)[a - p - 1]);
            }
        }
        assert forall|a: int, b: int| 0 <= a < b < r.len() implies r[a].1 <= r[b].1 by {
            if b < p {
            } else if b == p {
                assert(r[a] == t[a]);
            } else if a < p {
                assert(t[a].1 <= t[b - 1].1 || a == b - 1);
            } else if a == p {
                assert(t[p].1 <= t[b - 1].1 || p == b - 1);
            } else {
                assert(t[a - 1].1 <= t[b - 1].1);
            }
        }
    }
}

/// Entries are evicted oldest first, and an entry is never evicted while a newer one
/// stays: the evicted keys are those of the least recently used entries, in order of use.
pub proof fn law_eviction_takes_the_oldest<K>(entries: Seq<(K, u64, usize)>, bytes: int, budget: int)
    ensures
        ({
            let sorted = sorted_by_tick(entries);
            let k = evicted_count(sorted, 0, bytes, budget);
            &&& tick_ordered(sorted)
            &&& sorted.len() == entries.len()
            &&& 0 <= k <= sorted.len()
            &&& eviction_plan_of(entries, bytes, budget) == sorted.take(k).map_values(
                |e: (K, u64, usize)| e.0,
            )
        }),
{
    lemma_sorted_by_tick_is_ordered(entries);
    lemma_evicted_count_bounds(sorted_by_tick(entries), 0, bytes, budget);
}

proof fn lemma_evicted_count_keeps_one<K>(sorted: Seq<(K, u64, usize)>, i: int, bytes: int, budget: int)
    requires
        0 <= i < sorted.len(),
    ensures
        evicted_count(sorted, i, bytes, budget) < sorted.len(),
    decreases sorted.len() - i,
{
    if !(i >= sorted.len() || bytes <= budget || sorted.len() - i <= 1) {
        lemma_evicted_count_keeps_one(
            sorted,
            i + 1,
            if bytes - sorted[i].2 < 0 {
                0
            } else {
                bytes - sorted[i].2
            },
            budget,
        );
    }
}

/// However far over budget the cache is, it keeps at least one entry, even one larger
/// than the whole budget.
pub proof fn law_eviction_keeps_one_entry<K>(entries: Seq<(K, u64, usize)>, bytes: int, budget: int)
    requires
        entries.len() > 0,
    ensures
        eviction_plan_of(entries, bytes, budget).len() < entries.len(),
{
    lemma_sorted_len(entries);
    lemma_evicted_count_keeps_one(sorted_by_tick(entries), 0, bytes, budget);
    lemma_evicted_count_bounds(sorted_by_tick(entries), 0, bytes, budget);
    let sorted = sorted_by_tick(entries);
    let k = evicted_count(sorted, 0, bytes, budget);
    assert(sorted.take(k).map_values(|e: (K, u64, usize)| e.0).len() == k);
}

} // verus!
