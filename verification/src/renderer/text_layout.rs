use vstd::prelude::*;
use vstd::utf8::*;

use crate::platform::tray::{utf16_of, utf16_of_char};
use crate::text::chars_of;
use unicode_segmentation::UnicodeSegmentation;

verus! {

/// The direction text runs in.
#[derive(Clone, Copy, Debug, PartialEq, Eq, Structural)]
pub enum TextDirection {
    /// Decided by the first strong character of the text.
    Auto,
    LeftToRight,
    RightToLeft,
}

/// Whether the first paragraph of `text` runs right to left under the Unicode
/// bidirectional algorithm; `None` for text without paragraphs.
pub uninterp spec fn bidi_first_paragraph_rtl(text: Seq<char>) -> Option<bool>;

/// Runs `unicode_bidi::BidiInfo::new` on `text` with no default paragraph level and reads
/// whether its first paragraph is right to left. The crate splits any non-empty text into
/// at least one paragraph and empty text into none; what the level of a paragraph is
/// rests on the crate's bidirectional tables and is left to the name.
#[verifier::external_body]
fn first_paragraph_rtl(text: &str) -> (r: Option<bool>)
    ensures
        r == bidi_first_paragraph_rtl(text@),
        r is None <==> text@.len() == 0,
{
    unicode_bidi::BidiInfo::new(text, None).paragraphs.first().map(|paragraph| paragraph.level.is_rtl())
}

pub open spec fn direction_of(requested: TextDirection, first_rtl: Option<bool>) -> TextDirection {
    if requested != TextDirection::Auto {
        requested
    } else if first_rtl == Some(true) {
        TextDirection::RightToLeft
    } else {
        TextDirection::LeftToRight
    }
}

/// The direction to lay text out in: the requested one, or for `Auto` the direction of
/// the first paragraph (`first_rtl`), left to right when there is none.
pub fn direction_from_first_paragraph(requested: TextDirection, first_rtl: Option<bool>) -> (r: TextDirection)
    ensures
        r == direction_of(requested, first_rtl),
{
    if requested != TextDirection::Auto {
        return requested;
    }
    match first_rtl {
        Some(true) => TextDirection::RightToLeft,
        _ => TextDirection::LeftToRight,
    }
}

/// The direction to lay `text` out in.
pub fn resolved_text_direction(text: &str, requested: TextDirection) -> (r: TextDirection)
    ensures
        r == direction_of(requested, bidi_first_paragraph_rtl(text@)),
        requested != TextDirection::Auto ==> r == requested,
        requested == TextDirection::Auto && text@.len() == 0 ==> r == TextDirection::LeftToRight,
{
    if requested != TextDirection::Auto {
        return requested;
    }
    let first = first_paragraph_rtl(text);
    direction_from_first_paragraph(requested, first)
}

proof fn lemma_encode_utf8_push(s: Seq<char>, c: char)
    ensures
        encode_utf8(s.push(c)) == encode_utf8(s) + encode_scalar(c as u32),
    decreases s.len(),
{
    if s.len() == 0 {
        assert(s.push(c).drop_first() =~= Seq::<char>::empty());
        assert(encode_utf8(s.push(c)) =~= encode_scalar(c as u32) + encode_utf8(Seq::<char>::empty()));
    } else {
        lemma_encode_utf8_push(s.drop_first(), c);
        assert(s.push(c).drop_first() =~= s.drop_first().push(c));
        assert(encode_utf8(s.push(c)) =~= encode_scalar(s[0] as u32) + encode_utf8(s.drop_first().push(c)));
    }
}

/// The number of bytes of the UTF-8 encoding of a character.
fn utf8_width(c: char) -> (r: usize)
    ensures
        r == encode_scalar(c as u32).len(),
{
    let v = c as u32;
    if v <= 0x7f {
        1
    } else if v <= 0x7ff {
        2
    } else if v <= 0xffff {
        assert(!(0xD800 <= v <= 0xDFFF));
        3
    } else {
        4
    }
}

/// The byte offset of each character of a text, then the length of the text.
pub open spec fn byte_boundaries_of(text: Seq<char>) -> Seq<int> {
    Seq::new(text.len() + 1, |i: int| encode_utf8(text.take(i)).len() as int)
}

/// The UTF-16 offset of each character of a text, then its length in UTF-16 code units.
pub open spec fn utf16_boundaries_of(text: Seq<char>) -> Seq<int> {
    Seq::new(text.len() + 1, |i: int| utf16_of(text.take(i)).len() as int)
}

pub open spec fn usize_views(v: Seq<usize>) -> Seq<int> {
    v.map_values(|x: usize| x as int)
}

pub fn char_byte_boundaries(text: &str) -> (r: Vec<usize>)
    ensures
        usize_views(r@) == byte_boundaries_of(text@),
{
    let cs = chars_of(text);
    let bytes = text.as_bytes();
    let total = bytes.len();
    let mut r: Vec<usize> = Vec::new();
    let mut offset: usize = 0;
    let mut i: usize = 0;
    assert(text@.take(0) =~= Seq::<char>::empty());
    while i < cs.len()
        invariant
            i <= cs@.len(),
            cs@ == text@,
            total == encode_utf8(text@).len(),
            offset == encode_utf8(text@.take(i as int)).len(),
            usize_views(r@) == byte_boundaries_of(text@).take(i as int),
        decreases cs@.len() - i,
    {
        proof {
            lemma_encode_utf8_push(text@.take(i as int), text@[i as int]);
            assert(text@.take(i + 1) =~= text@.take(i as int).push(text@[i as int]));
            lemma_encode_utf8_prefix(text@, i + 1);
        }
        let ghost before = usize_views(r@);
        r.push(offset);
        assert(usize_views(r@) =~= before.push(offset as int));
        assert(usize_views(r@) =~= byte_boundaries_of(text@).take(i + 1));
        offset = offset + utf8_width(cs[i]);
        i = i + 1;
    }
    assert(text@.take(i as int) =~= text@);
    let ghost before = usize_views(r@);
    r.push(total);
    assert(usize_views(r@) =~= before.push(total as int));
    assert(usize_views(r@) =~= byte_boundaries_of(text@));
    r
}

proof fn lemma_encode_utf8_prefix(s: Seq<char>, n: int)
    requires
        0 <= n <= s.len(),
    ensures
        encode_utf8(s.take(n)).len() <= encode_utf8(s).len(),
    decreases s.len() - n,
{
    if n < s.len() {
        lemma_encode_utf8_prefix(s, n + 1);
        lemma_encode_utf8_push(s.take(n), s[n]);
        assert(s.take(n + 1) =~= s.take(n).push(s[n]));
    } else {
        assert(s.take(n) =~= s);
    }
}

proof fn lemma_char_widths(c: char)
    ensures
        (c as u32) as int == c as int,
        utf16_of_char(c).len() <= encode_scalar(c as u32).len(),
        utf16_of_char(c).len() == if (c as int) < 0x10000 {
            1int
        } else {
            2int
        },
{
    let v = c as u32;
    assert(0 <= c as int <= 0x10FFFF);
    assert(v as int == c as int);
    if (c as int) < 0x10000 {
        assert(utf16_of_char(c).len() == 1);
        assert(encode_scalar(v).len() >= 1);
    } else {
        assert(utf16_of_char(c).len() == 2);
        assert(!has_width_1_encoding(v) && !has_width_2_encoding(v) && !has_width_3_encoding(v));
        assert(encode_scalar(v).len() == 4);
    }
}

proof fn lemma_utf16_within_utf8(s: Seq<char>)
    ensures
        utf16_of(s).len() <= encode_utf8(s).len(),
    decreases s.len(),
{
    if s.len() > 0 {
        lemma_utf16_within_utf8(s.drop_last());
        lemma_encode_utf8_push(s.drop_last(), s.last());
        assert(s.drop_last().push(s.last()) =~= s);
        lemma_char_widths(s.last());
    }
}

pub fn char_utf16_boundaries(text: &str) -> (r: Vec<usize>)
    ensures
        usize_views(r@) == utf16_boundaries_of(text@),
{
    let cs = chars_of(text);
    let bytes = text.as_bytes();
    let total = bytes.len();
    let mut r: Vec<usize> = Vec::new();
    let mut offset: usize = 0;
    let mut i: usize = 0;
    r.push(0);
    assert(text@.take(0) =~= Seq::<char>::empty());
    assert(usize_views(r@) =~= utf16_boundaries_of(text@).take(1));
    while i < cs.len()
        invariant
            i <= cs@.len(),
            cs@ == text@,
            total == encode_utf8(text@).len(),
            offset == utf16_of(text@.take(i as int)).len(),
            usize_views(r@) == utf16_boundaries_of(text@).take(i + 1),
        decreases cs@.len() - i,
    {
        proof {
            assert(text@.take(i + 1).drop_last() =~= text@.take(i as int));
            lemma_utf16_within_utf8(text@.take(i + 1));
            lemma_encode_utf8_prefix(text@, i + 1);
        }
        proof {
            lemma_char_widths(cs@[i as int]);
        }
        let width: usize = if (cs[i] as u32) < 0x10000 {
            1
        } else {
            2
        };
        proof {
            assert(utf16_of(text@.take(i + 1)) == utf16_of(text@.take(i as int)) + utf16_of_char(
                text@[i as int],
            ));
        }
        offset = offset + width;
        let ghost before = usize_views(r@);
        r.push(offset);
        assert(usize_views(r@) =~= before.push(offset as int));
        assert(usize_views(r@) =~= utf16_boundaries_of(text@).take(i + 2));
        i = i + 1;
    }
    assert(utf16_boundaries_of(text@).take(i + 1) =~= utf16_boundaries_of(text@));
    r
}

pub open spec fn nondecreasing(s: Seq<usize>) -> bool {
    forall|i: int, j: int| 0 <= i <= j < s.len() ==> s[i] <= s[j]
}

/// The number of leading boundaries below `offset`: the index of the character that
/// starts at `offset` when `boundaries` ascend.
pub fn partition_point_below(boundaries: &[usize], offset: usize) -> (r: usize)
    ensures
        r <= boundaries@.len(),
        nondecreasing(boundaries@) ==> forall|i: int| 0 <= i < r ==> boundaries@[i] < offset,
        nondecreasing(boundaries@) ==> forall|i: int| r <= i < boundaries@.len() ==> boundaries@[i] >= offset,
{
    let mut lo: usize = 0;
    let mut hi: usize = boundaries.len();
    while lo < hi
        invariant
            lo <= hi <= boundaries@.len(),
            nondecreasing(boundaries@) ==> forall|i: int| 0 <= i < lo ==> boundaries@[i] < offset,
            nondecreasing(boundaries@) ==> forall|i: int| hi <= i < boundaries@.len() ==> boundaries@[i] >= offset,
        decreases hi - lo,
    {
        let mid = lo + (hi - lo) / 2;
        if boundaries[mid] < offset {
            lo = mid + 1;
        } else {
            hi = mid;
        }
    }
    lo
}

/// The index of the character at byte `byte`.
pub fn byte_to_char_index(boundaries: &[usize], byte: usize) -> (r: usize)
    ensures
        r <= boundaries@.len(),
        nondecreasing(boundaries@) ==> forall|i: int| 0 <= i < r ==> boundaries@[i] < byte,
        nondecreasing(boundaries@) ==> forall|i: int| r <= i < boundaries@.len() ==> boundaries@[i] >= byte,
{
    partition_point_below(boundaries, byte)
}

/// The index of the character at UTF-16 offset `offset`.
pub fn utf16_to_char_index(boundaries: &[usize], offset: usize) -> (r: usize)
    ensures
        r <= boundaries@.len(),
        nondecreasing(boundaries@) ==> forall|i: int| 0 <= i < r ==> boundaries@[i] < offset,
        nondecreasing(boundaries@) ==> forall|i: int| r <= i < boundaries@.len() ==> boundaries@[i] >= offset,
{
    partition_point_below(boundaries, offset)
}

/// The character range of a byte range.
pub fn byte_range_to_char_range(boundaries: &[usize], start: usize, end: usize) -> (r: (usize, usize))
    ensures
        r.0 <= boundaries@.len(),
        r.1 <= boundaries@.len(),
        nondecreasing(boundaries@) ==> forall|i: int| 0 <= i < r.0 ==> boundaries@[i] < start,
        nondecreasing(boundaries@) ==> forall|i: int| r.0 <= i < boundaries@.len() ==> boundaries@[i] >= start,
        nondecreasing(boundaries@) ==> forall|i: int| 0 <= i < r.1 ==> boundaries@[i] < end,
        nondecreasing(boundaries@) ==> forall|i: int| r.1 <= i < boundaries@.len() ==> boundaries@[i] >= end,
{
    (byte_to_char_index(boundaries, start), byte_to_char_index(boundaries, end))
}

/// The character range of a UTF-16 range.
pub fn utf16_range_to_char_range(boundaries: &[usize], start: usize, end: usize) -> (r: (usize, usize))
    ensures
        r.0 <= boundaries@.len(),
        r.1 <= boundaries@.len(),
        nondecreasing(boundaries@) ==> forall|i: int| 0 <= i < r.0 ==> boundaries@[i] < start,
        nondecreasing(boundaries@) ==> forall|i: int| r.0 <= i < boundaries@.len() ==> boundaries@[i] >= start,
        nondecreasing(boundaries@) ==> forall|i: int| 0 <= i < r.1 ==> boundaries@[i] < end,
        nondecreasing(boundaries@) ==> forall|i: int| r.1 <= i < boundaries@.len() ==> boundaries@[i] >= end,
{
    (utf16_to_char_index(boundaries, start), utf16_to_char_index(boundaries, end))
}


/// Whether byte offset `b` is where a character of `text` begins.
pub open spec fn starts_a_char(text: Seq<char>, b: int) -> bool {
    exists|k: int| 0 <= k < text.len() && b == #[trigger] byte_boundaries_of(text)[k]
}

/// The byte offsets at which the extended grapheme clusters of a text begin, in order.
pub uninterp spec fn grapheme_starts_of(text: Seq<char>) -> Seq<usize>;

/// Runs `UnicodeSegmentation::grapheme_indices` on `text` with extended clusters and keeps
/// each cluster's byte offset. The crate walks the text from its start one cluster at a
/// time, each cluster a non-empty run of whole characters: the offsets start at 0 for
/// non-empty text and rise strictly, each the byte offset of a character of the text.
/// Where the boundaries fall under the Unicode segmentation rules is left to the name.
#[verifier::external_body]
fn grapheme_starts(text: &str) -> (r: Vec<usize>)
    ensures
        r@ == grapheme_starts_of(text@),
        r@.len() == 0 <==> text@.len() == 0,
        r@.len() > 0 ==> r@[0] == 0,
        forall|i: int, j: int| 0 <= i < j < r@.len() ==> r@[i] < r@[j],
        forall|i: int| 0 <= i < r@.len() ==> #[trigger] starts_a_char(text@, r@[i] as int),
{
    text.grapheme_indices(true).map(|(start, _)| start).collect()
}

proof fn lemma_boundary_step(text: Seq<char>, i: int)
    requires
        0 <= i < text.len(),
    ensures
        byte_boundaries_of(text)[i] < byte_boundaries_of(text)[i + 1],
{
    lemma_encode_utf8_push(text.take(i), text[i]);
    assert(text.take(i + 1) =~= text.take(i).push(text[i]));
}

proof fn lemma_boundaries_increase(text: Seq<char>)
    ensures
        forall|i: int, j: int|
            0 <= i < j <= text.len() ==> byte_boundaries_of(text)[i] < byte_boundaries_of(text)[j],
{
    assert forall|i: int, j: int| 0 <= i < j <= text.len() implies byte_boundaries_of(text)[i]
        < byte_boundaries_of(text)[j] by {
        lemma_boundaries_increase_from(text, i, j);
    }
}

proof fn lemma_boundaries_increase_from(text: Seq<char>, i: int, j: int)
    requires
        0 <= i < j <= text.len(),
    ensures
        byte_boundaries_of(text)[i] < byte_boundaries_of(text)[j],
    decreases j - i,
{
    lemma_boundary_step(text, j - 1);
    if i < j - 1 {
        lemma_boundaries_increase_from(text, i, j - 1);
    }
}

/// One grapheme cluster of a text: its characters `start..end` and the UTF-16 code units
/// `utf16_start..utf16_end` they take.
#[derive(Clone, Copy, Debug, PartialEq, Eq, Structural)]
pub struct GraphemeCluster {
    pub start: usize,
    pub end: usize,
    pub utf16_start: usize,
    pub utf16_end: usize,
}

/// The byte offset at which grapheme cluster `i` of a text ends: where the next begins,
/// or the end of the text.
pub open spec fn cluster_end_byte(text: Seq<char>, i: int) -> int {
    let starts = grapheme_starts_of(text);
    if i + 1 < starts.len() {
        starts[i + 1] as int
    } else {
        byte_boundaries_of(text)[text.len() as int]
    }
}

/// Where a cluster that starts at byte `i` of the cluster starts `starts` ends: where the next
/// cluster starts, or `total`, the length of the text in bytes, after the last.
pub open spec fn cluster_end_of(starts: Seq<usize>, i: int, total: int) -> int {
    if i + 1 < starts.len() {
        starts[i + 1] as int
    } else {
        total
    }
}

/// Whether `c` covers the bytes `start_byte..end_byte` of `text`: its first character is the
/// first that does not begin before `start_byte`, the character after it the first that does
/// not begin before `end_byte`, and its UTF-16 range is that of those characters.
pub open spec fn cluster_spans(text: Seq<char>, c: GraphemeCluster, start_byte: int, end_byte: int) -> bool {
    let b = byte_boundaries_of(text);
    let n = text.len() as int;
    &&& c.start <= n
    &&& c.end <= n
    &&& forall|j: int| 0 <= j < c.start ==> #[trigger] b[j] < start_byte
    &&& forall|j: int| c.start <= j <= n ==> #[trigger] b[j] >= start_byte
    &&& forall|j: int| 0 <= j < c.end ==> #[trigger] b[j] < end_byte
    &&& forall|j: int| c.end <= j <= n ==> #[trigger] b[j] >= end_byte
    &&& c.utf16_start == utf16_boundaries_of(text)[c.start as int]
    &&& c.utf16_end == utf16_boundaries_of(text)[c.end as int]
}

/// The clusters of `text` that begin at the byte offsets `starts`, each running to the
/// next start or to the end of the text.
pub fn clusters_from_starts(text: &str, starts: &[usize]) -> (r: Vec<GraphemeCluster>)
    requires
        forall|i: int|
            0 <= i < starts@.len() ==> #[trigger] starts@[i] <= byte_boundaries_of(text@)[text@.len() as int],
    ensures
        r@.len() == starts@.len(),
        forall|i: int|
            0 <= i < r@.len() ==> #[trigger] cluster_spans(
                text@,
                r@[i],
                starts@[i] as int,
                cluster_end_of(starts@, i, byte_boundaries_of(text@)[text@.len() as int]),
            ),
{
    let bytes = char_byte_boundaries(text);
    let units = char_utf16_boundaries(text);
    let ghost b = byte_boundaries_of(text@);
    let ghost n = text@.len() as int;
    proof {
        lemma_boundaries_increase(text@);
        assert(usize_views(bytes@).len() == bytes@.len());
        assert(usize_views(units@).len() == units@.len());
        assert forall|x: int, y: int| 0 <= x <= y < bytes@.len() implies bytes@[x] <= bytes@[y] by {
            assert(bytes@[x] as int == usize_views(bytes@)[x]);
            assert(bytes@[y] as int == usize_views(bytes@)[y]);
            if x < y {
                assert(b[x] < b[y]);
            }
        }
    }
    let last = bytes.len() - 1;
    let mut clusters: Vec<GraphemeCluster> = Vec::new();
    let mut i: usize = 0;
    while i < starts.len()
        invariant
            i <= starts@.len(),
            usize_views(bytes@) == b,
            b == byte_boundaries_of(text@),
            n == text@.len(),
            bytes@.len() == n + 1,
            last == n,
            usize_views(units@) == utf16_boundaries_of(text@),
            units@.len() == n + 1,
            nondecreasing(bytes@),
            forall|x: int| 0 <= x < starts@.len() ==> #[trigger] starts@[x] <= b[n],
            clusters@.len() == i,
            forall|j: int|
                0 <= j < i ==> #[trigger] cluster_spans(
                    text@,
                    clusters@[j],
                    starts@[j] as int,
                    cluster_end_of(starts@, j, b[n]),
                ),
        decreases starts@.len() - i,
    {
        let start_byte = starts[i];
        let end_byte = if i + 1 < starts.len() {
            starts[i + 1]
        } else {
            bytes[last]
        };
        let start = byte_to_char_index(bytes.as_slice(), start_byte);
        let end = byte_to_char_index(bytes.as_slice(), end_byte);
        proof {
            assert(bytes@[n] as int == usize_views(bytes@)[n]);
            assert(start_byte <= b[n]);
            assert(end_byte <= b[n]);
            assert(start <= n);
            assert(end <= n);
        }
        let cluster = GraphemeCluster {
            start,
            end,
            utf16_start: units[start],
            utf16_end: units[end],
        };
        proof {
            assert(units@[start as int] as int == usize_views(units@)[start as int]);
            assert(units@[end as int] as int == usize_views(units@)[end as int]);
            assert forall|j: int| 0 <= j <= n implies #[trigger] b[j] == bytes@[j] as int by {
                assert(bytes@[j] as int == usize_views(bytes@)[j]);
            }
            assert(cluster_end_of(starts@, i as int, b[n]) == end_byte as int);
            assert(cluster_spans(text@, cluster, start_byte as int, end_byte as int));
        }
        clusters.push(cluster);
        i = i + 1;
    }
    clusters
}

/// The grapheme clusters of a text, in order, each as the characters and UTF-16 code units
/// it covers.
pub fn grapheme_clusters(text: &str) -> (r: Vec<GraphemeCluster>)
    ensures
        r@.len() == grapheme_starts_of(text@).len(),
        forall|i: int|
            0 <= i < r@.len() ==> {
                let c = #[trigger] r@[i];
                &&& c.start <= text@.len()
                &&& c.end <= text@.len()
                &&& byte_boundaries_of(text@)[c.start as int] == grapheme_starts_of(text@)[i]
                &&& byte_boundaries_of(text@)[c.end as int] == cluster_end_byte(text@, i)
                &&& c.utf16_start == utf16_boundaries_of(text@)[c.start as int]
                &&& c.utf16_end == utf16_boundaries_of(text@)[c.end as int]
            },
{
    let starts = grapheme_starts(text);
    let ghost b = byte_boundaries_of(text@);
    let ghost n = text@.len() as int;
    proof {
        lemma_boundaries_increase(text@);
        assert forall|i: int| 0 <= i < starts@.len() implies #[trigger] starts@[i] <= b[n] by {
            assert(starts_a_char(text@, starts@[i] as int));
        }
    }
    let r = clusters_from_starts(text, starts.as_slice());
    proof {
        assert forall|i: int| 0 <= i < r@.len() implies {
            let c = #[trigger] r@[i];
            &&& c.start <= n
            &&& c.end <= n
            &&& b[c.start as int] == grapheme_starts_of(text@)[i]
            &&& b[c.end as int] == cluster_end_byte(text@, i)
            &&& c.utf16_start == utf16_boundaries_of(text@)[c.start as int]
            &&& c.utf16_end == utf16_boundaries_of(text@)[c.end as int]
        } by {
            let c = r@[i];
            assert(cluster_spans(text@, c, starts@[i] as int, cluster_end_of(starts@, i, b[n])));
            assert(starts_a_char(text@, starts@[i] as int));
            let k = choose|k: int| 0 <= k < n && starts@[i] == #[trigger] b[k];
            if (c.start as int) < k {
                assert(b[c.start as int] < b[k]);
                assert(b[c.start as int] >= starts@[i]);
            }
            if k < (c.start as int) {
                assert(b[k] < starts@[i]);
            }
            if i + 1 < starts@.len() {
                assert(starts_a_char(text@, starts@[i + 1] as int));
                let k2 = choose|k: int| 0 <= k < n && starts@[i + 1] == #[trigger] b[k];
                if (c.end as int) < k2 {
                    assert(b[c.end as int] < b[k2]);
                    assert(b[c.end as int] >= starts@[i + 1]);
                }
                if k2 < (c.end as int) {
                    assert(b[k2] < starts@[i + 1]);
                }
            } else {
                if (c.end as int) < n {
                    assert(b[c.end as int] < b[n]);
                    assert(b[c.end as int] >= b[n]);
                }
            }
        }
    }
    r
}

/// A query for the caret beside character `char_index`: the edge of the character before
/// it (`downstream` false) or after it (`downstream` true), as the UTF-16 range of that
/// character.
#[derive(Clone, Copy, Debug, PartialEq, Eq, Structural)]
pub struct CaretQuery {
    pub char_index: usize,
    pub downstream: bool,
    pub start: usize,
    pub end: usize,
}

/// The caret queries for the first `n` caret positions of a text whose characters have the
/// UTF-16 boundaries `u`: at each position the upstream caret after the previous character,
/// then the downstream caret before the next one, where those characters exist.
pub open spec fn caret_queries_of(u: Seq<usize>, n: int) -> Seq<CaretQuery>
    decreases n,
{
    if n <= 0 {
        Seq::empty()
    } else {
        let rest = caret_queries_of(u, n - 1);
        let index = n - 1;
        let up = if index > 0 {
            rest.push(CaretQuery { char_index: index as usize, downstream: false, start: u[index - 1], end: u[index] })
        } else {
            rest
        };
        if index + 1 < u.len() {
            up.push(CaretQuery { char_index: index as usize, downstream: true, start: u[index], end: u[index + 1] })
        } else {
            up
        }
    }
}

/// The caret queries of a text with the UTF-16 boundaries `utf16_boundaries`.
pub fn caret_queries(utf16_boundaries: &[usize]) -> (r: Vec<CaretQuery>)
    ensures
        r@ == caret_queries_of(utf16_boundaries@, utf16_boundaries@.len() as int),
{
    let n = utf16_boundaries.len();
    let mut queries: Vec<CaretQuery> = Vec::new();
    let mut index: usize = 0;
    while index < n
        invariant
            index <= n,
            n == utf16_boundaries@.len(),
            queries@ == caret_queries_of(utf16_boundaries@, index as int),
        decreases n - index,
    {
        if index > 0 {
            queries.push(
                CaretQuery {
                    char_index: index,
                    downstream: false,
                    start: utf16_boundaries[index - 1],
                    end: utf16_boundaries[index],
                },
            );
        }
        if index + 1 < n {
            queries.push(
                CaretQuery {
                    char_index: index,
                    downstream: true,
                    start: utf16_boundaries[index],
                    end: utf16_boundaries[index + 1],
                },
            );
        }
        index = index + 1;
    }
    queries
}

} // verus!
