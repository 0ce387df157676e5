use vstd::prelude::*;

use super::location::{
    absolute_path, path_segments_of, percent_decode, percent_decode_of, Location, LocationView,
};
use crate::text::{
    chars_equal, chars_of, find_char, index_of, join_pieces, join_with, lemma_index_of, string_of, views,
};

verus! {

broadcast use vstd::seq_lib::group_seq_properties;

/// One segment of a route pattern.
pub enum SegmentView {
    Static(Seq<char>),
    Parameter(Seq<char>),
    Wildcard(Seq<char>),
}

/// The mathematical content of a parsed pattern.
pub struct PatternView {
    pub source: Seq<char>,
    pub absolute: bool,
    pub segments: Seq<SegmentView>,
}

/// How one raw pattern segment is read: `:name` captures one segment, `*name` the rest.
pub open spec fn segment_kind(raw: Seq<char>) -> SegmentView {
    if raw.len() > 0 && raw[0] == ':' {
        SegmentView::Parameter(raw.drop_first())
    } else if raw.len() > 0 && raw[0] == '*' {
        SegmentView::Wildcard(raw.drop_first())
    } else {
        SegmentView::Static(raw)
    }
}

pub open spec fn pattern_segments_of(source: Seq<char>) -> Seq<SegmentView> {
    path_segments_of(source).map_values(|raw: Seq<char>| segment_kind(raw))
}

/// The name a segment captures, if it captures one.
pub open spec fn segment_name(s: SegmentView) -> Option<Seq<char>> {
    match s {
        SegmentView::Static(_) => None,
        SegmentView::Parameter(n) => Some(n),
        SegmentView::Wildcard(n) => Some(n),
    }
}

pub open spec fn segment_is_valid(segments: Seq<SegmentView>, i: int) -> bool {
    match segments[i] {
        SegmentView::Static(t) => index_of(t, '*') is None && index_of(t, ':') is None,
        SegmentView::Parameter(n) => n.len() > 0,
        SegmentView::Wildcard(n) => n.len() > 0 && i == segments.len() - 1,
    }
}

/// The score a pattern with `n` segments can reach at most.
pub open spec fn max_pattern_score(n: int) -> int {
    1 + 100 * n
}

/// A pattern `PathPattern::parse` accepts: not empty, without query or fragment,
/// parameter and wildcard names non-empty and distinct, a wildcard only last, markers only
/// at the start of a segment, and few enough segments for its score to fit in `u32`.
pub open spec fn pattern_is_valid(source: Seq<char>) -> bool {
    let segments = pattern_segments_of(source);
    &&& source.len() > 0
    &&& index_of(source, '?') is None
    &&& index_of(source, '#') is None
    &&& forall|i: int| 0 <= i < segments.len() ==> segment_is_valid(segments, i)
    &&& forall|i: int, j: int|
        0 <= i < j < segments.len() && segment_name(#[trigger] segments[i]) is Some
            ==> segment_name(segments[i]) != segment_name(#[trigger] segments[j])
    &&& max_pattern_score(segments.len() as int) <= u32::MAX
}

/// The result of matching one route against a location from a segment offset.
pub struct StepView {
    pub next_offset: int,
    pub can_end: bool,
    pub score: int,
    pub pathname: Option<Seq<char>>,
    pub params: Seq<(Seq<char>, Seq<char>)>,
    pub location: Option<LocationView>,
}

/// Each segment decoded, or `None` when one does not decode.
pub open spec fn decode_all(segments: Seq<Seq<char>>) -> Option<Seq<Seq<char>>>
    decreases segments.len(),
{
    if segments.len() == 0 {
        Some(Seq::empty())
    } else {
        match (decode_all(segments.drop_last()), percent_decode_of(segments.last())) {
            (Some(rest), Some(value)) => Some(rest.push(value)),
            _ => None,
        }
    }
}

/// Matches pattern segments against location segments from `cursor`: the cursor after
/// them, the score they add, and the parameters they capture.
pub open spec fn match_segments(
    pattern: Seq<SegmentView>,
    segments: Seq<Seq<char>>,
    cursor: int,
) -> Option<(int, int, Seq<(Seq<char>, Seq<char>)>)>
    decreases pattern.len(),
{
    if pattern.len() == 0 {
        Some((cursor, 0, Seq::empty()))
    } else {
        match pattern[0] {
            SegmentView::Static(expected) => if 0 <= cursor < segments.len() && segments[cursor]
                == expected {
                match match_segments(pattern.drop_first(), segments, cursor + 1) {
                    Some((c, s, p)) => Some((c, s + 100, p)),
                    None => None,
                }
            } else {
                None
            },
            SegmentView::Parameter(name) => if 0 <= cursor < segments.len() {
                match percent_decode_of(segments[cursor]) {
                    Some(value) => match match_segments(pattern.drop_first(), segments, cursor + 1) {
                        Some((c, s, p)) => Some((c, s + 10, seq![(name, value)] + p)),
                        None => None,
                    },
                    None => None,
                }
            } else {
                None
            },
            SegmentView::Wildcard(name) => match decode_all(segments.skip(cursor)) {
                Some(values) => match match_segments(
                    pattern.drop_first(),
                    segments,
                    segments.len() as int,
                ) {
                    Some((c, s, p)) => Some((c, s + 1, seq![(name, join_with(values, '/'))] + p)),
                    None => None,
                },
                None => None,
            },
        }
    }
}

/// `PathPattern::match_location` over views.
pub open spec fn match_location_of(p: PatternView, l: LocationView, offset: int) -> Option<StepView> {
    let segments = path_segments_of(l.path);
    if p.absolute && offset != 0 {
        None
    } else {
        match match_segments(p.segments, segments, offset) {
            Some((cursor, score, params)) => Some(
                StepView {
                    next_offset: cursor,
                    can_end: cursor == segments.len(),
                    score: 1 + score,
                    pathname: Some(absolute_path(segments.take(cursor))),
                    params,
                    location: Some(l),
                },
            ),
            None => None,
        }
    }
}

/// The weight the router gives one pattern segment: a static segment counts 100, a
/// parameter 10 and a wildcard 1, so a more specific pattern scores more.
pub open spec fn segment_weight(s: SegmentView) -> int {
    match s {
        SegmentView::Static(_) => 100,
        SegmentView::Parameter(_) => 10,
        SegmentView::Wildcard(_) => 1,
    }
}

/// The sum of the weights of a pattern's segments.
pub open spec fn pattern_weight(segments: Seq<SegmentView>) -> int
    decreases segments.len(),
{
    if segments.len() == 0 {
        0
    } else {
        segment_weight(segments[0]) + pattern_weight(segments.drop_first())
    }
}

proof fn lemma_match_segments_weight(pattern: Seq<SegmentView>, segments: Seq<Seq<char>>, cursor: int)
    ensures
        match_segments(pattern, segments, cursor) matches Some((c, s, q)) ==> s == pattern_weight(pattern),
    decreases pattern.len(),
{
    if pattern.len() > 0 {
        lemma_match_segments_weight(pattern.drop_first(), segments, cursor + 1);
        lemma_match_segments_weight(pattern.drop_first(), segments, segments.len() as int);
    }
}

/// A pattern that matches scores one plus the weights of its segments: 100 for each static
/// segment, 10 for each parameter and 1 for a wildcard.
pub proof fn law_match_score_is_segment_weights(p: PatternView, l: LocationView, offset: int)
    ensures
        match_location_of(p, l, offset) matches Some(step) ==> step.score == 1 + pattern_weight(p.segments),
{
    lemma_match_segments_weight(p.segments, path_segments_of(l.path), offset);
}

proof fn lemma_weight_differs_at(a: Seq<SegmentView>, b: Seq<SegmentView>, k: int)
    requires
        a.len() == b.len(),
        0 <= k < a.len(),
        forall|i: int| 0 <= i < a.len() && i != k ==> a[i] == b[i],
    ensures
        pattern_weight(a) - pattern_weight(b) == segment_weight(a[k]) - segment_weight(b[k]),
    decreases a.len(),
{
    if k > 0 {
        assert forall|i: int| 0 <= i < a.drop_first().len() && i != k - 1 implies a.drop_first()[i]
            == b.drop_first()[i] by {
            assert(a[i + 1] == b[i + 1]);
        }
        lemma_weight_differs_at(a.drop_first(), b.drop_first(), k - 1);
    } else {
        assert(a.drop_first() =~= b.drop_first()) by {
            assert forall|i: int| 0 <= i < a.drop_first().len() implies a.drop_first()[i] == b.drop_first()[i] by {
                assert(a[i + 1] == b[i + 1]);
            }
        }
    }
}

/// A static segment outranks a parameter: of two patterns that both match a location and
/// differ only in one position, where one has a static segment and the other a
/// parameter, the static one scores 90 more.
pub proof fn law_static_segment_outranks_parameter(
    a: PatternView,
    b: PatternView,
    l: LocationView,
    offset: int,
    k: int,
)
    requires
        a.segments.len() == b.segments.len(),
        0 <= k < a.segments.len(),
        forall|i: int| 0 <= i < a.segments.len() && i != k ==> a.segments[i] == b.segments[i],
        a.segments[k] is Static,
        b.segments[k] is Parameter,
        match_location_of(a, l, offset) is Some,
        match_location_of(b, l, offset) is Some,
    ensures
        match_location_of(a, l, offset)->0.score == match_location_of(b, l, offset)->0.score + 90,
{
    law_match_score_is_segment_weights(a, l, offset);
    law_match_score_is_segment_weights(b, l, offset);
    lemma_weight_differs_at(a.segments, b.segments, k);
}

/// The inputs on which matching does not index past the location's segments.
pub open spec fn match_is_defined(p: PatternView, l: LocationView, offset: int) -> bool {
    ||| offset <= path_segments_of(l.path).len()
    ||| p.absolute
    ||| (p.segments.len() > 0 && !(p.segments[0] is Wildcard))
}

#[derive(Clone)]
pub enum PathSegment {
    Static(String),
    Parameter(String),
    Wildcard(String),
}

impl PathSegment {
    pub open spec fn view_of(self) -> SegmentView {
        match self {
            PathSegment::Static(s) => SegmentView::Static(s@),
            PathSegment::Parameter(s) => SegmentView::Parameter(s@),
            PathSegment::Wildcard(s) => SegmentView::Wildcard(s@),
        }
    }
}

pub open spec fn segment_views(s: Seq<PathSegment>) -> Seq<SegmentView> {
    s.map_values(|x: PathSegment| x.view_of())
}

pub open spec fn param_views(v: Seq<(String, String)>) -> Seq<(Seq<char>, Seq<char>)> {
    super::params::pair_views(v)
}

/// The outcome of matching one route from a segment offset.
pub struct MatchStep {
    pub next_offset: usize,
    pub can_end: bool,
    pub score: u32,
    pub pathname: Option<String>,
    pub params: Vec<(String, String)>,
    pub location: Option<Location>,
}

impl MatchStep {
    pub open spec fn view_of(self) -> StepView {
        StepView {
            next_offset: self.next_offset as int,
            can_end: self.can_end,
            score: self.score as int,
            pathname: match self.pathname {
                Some(p) => Some(p@),
                None => None,
            },
            params: param_views(self.params@),
            location: match self.location {
                Some(l) => Some(l@),
                None => None,
            },
        }
    }
}

/// A parsed route pattern.
pub struct PathPattern {
    pub source: &'static str,
    absolute: bool,
    segments: Vec<PathSegment>,
}

impl View for PathPattern {
    type V = PatternView;

    closed spec fn view(&self) -> PatternView {
        PatternView { source: self.source@, absolute: self.absolute, segments: segment_views(self.segments@) }
    }
}

/// Reads the raw segments of a pattern.
fn segments_from(raw: &Vec<Vec<char>>) -> (r: Vec<PathSegment>)
    ensures
        segment_views(r@) == views(raw@).map_values(|x: Seq<char>| segment_kind(x)),
{
    let mut r: Vec<PathSegment> = Vec::new();
    let mut i: usize = 0;
    while i < raw.len()
        invariant
            i <= raw@.len(),
            segment_views(r@) == views(raw@).take(i as int).map_values(|x: Seq<char>| segment_kind(x)),
        decreases raw@.len() - i,
    {
        let seg = &raw[i];
        let ghost before = segment_views(r@);
        let s = if seg.len() > 0 && seg[0] == ':' {
            let name = crate::text::slice_chars(seg, 1, seg.len());
            assert(name@ =~= seg@.drop_first());
            PathSegment::Parameter(string_of(&name))
        } else if seg.len() > 0 && seg[0] == '*' {
            let name = crate::text::slice_chars(seg, 1, seg.len());
            assert(name@ =~= seg@.drop_first());
            PathSegment::Wildcard(string_of(&name))
        } else {
            PathSegment::Static(string_of(seg))
        };
        assert(s.view_of() == segment_kind(seg@));
        assert(views(raw@)[i as int] == seg@);
        let ghost sv = s.view_of();
        r.push(s);
        assert(segment_views(r@) =~= before.push(sv));
        assert(views(raw@).take(i + 1).map_values(|x: Seq<char>| segment_kind(x)) =~= views(
            raw@,
        ).take(i as int).map_values(|x: Seq<char>| segment_kind(x)).push(segment_kind(seg@)));
        i = i + 1;
    }
    assert(views(raw@).take(i as int) =~= views(raw@));
    r
}

/// Adds an accumulated score and parameters in front of a match of the rest.
pub open spec fn combine_match(
    score: int,
    params: Seq<(Seq<char>, Seq<char>)>,
    rest: Option<(int, int, Seq<(Seq<char>, Seq<char>)>)>,
) -> Option<(int, int, Seq<(Seq<char>, Seq<char>)>)> {
    match rest {
        Some((c, s, p)) => Some((c, s + score, params + p)),
        None => None,
    }
}

proof fn lemma_combine_assoc(
    s1: int,
    p1: Seq<(Seq<char>, Seq<char>)>,
    s2: int,
    p2: Seq<(Seq<char>, Seq<char>)>,
    rest: Option<(int, int, Seq<(Seq<char>, Seq<char>)>)>,
)
    ensures
        combine_match(s1, p1, combine_match(s2, p2, rest)) == combine_match(s1 + s2, p1 + p2, rest),
{
    match rest {
        Some((c, s, p)) => {
            assert(p1 + (p2 + p) =~= (p1 + p2) + p);
        },
        None => {},
    }
}

/// Matching one pattern segment at `cursor`: the cursor after it, the score it adds and
/// the parameters it captures.
pub open spec fn step_of(seg: SegmentView, segments: Seq<Seq<char>>, cursor: int) -> Option<
    (int, int, Seq<(Seq<char>, Seq<char>)>),
> {
    match seg {
        SegmentView::Static(expected) => if 0 <= cursor < segments.len() && segments[cursor]
            == expected {
            Some((cursor + 1, 100, Seq::empty()))
        } else {
            None
        },
        SegmentView::Parameter(name) => if 0 <= cursor < segments.len() {
            match percent_decode_of(segments[cursor]) {
                Some(value) => Some((cursor + 1, 10, seq![(name, value)])),
                None => None,
            }
        } else {
            None
        },
        SegmentView::Wildcard(name) => match decode_all(segments.skip(cursor)) {
            Some(values) => Some((segments.len() as int, 1, seq![(name, join_with(values, '/'))])),
            None => None,
        },
    }
}

proof fn lemma_unfold_match(pattern: Seq<SegmentView>, segments: Seq<Seq<char>>, cursor: int)
    requires
        pattern.len() > 0,
    ensures
        match_segments(pattern, segments, cursor) == match step_of(pattern[0], segments, cursor) {
            Some((next, add, captured)) => combine_match(
                add,
                captured,
                match_segments(pattern.drop_first(), segments, next),
            ),
            None => None,
        },
{
    match match_segments(pattern.drop_first(), segments, cursor + 1) {
        Some((c, s, p)) => {
            assert(Seq::<(Seq<char>, Seq<char>)>::empty() + p =~= p);
        },
        None => {},
    }
}

/// Matches one pattern segment at `cursor`.
fn match_step(seg: &PathSegment, segments: &Vec<Vec<char>>, cursor: usize) -> (r: Option<
    (usize, u32, Vec<(String, String)>),
>)
    requires
        seg.view_of() is Wildcard ==> cursor <= segments@.len(),
    ensures
        match r {
            Some((next, add, captured)) => step_of(seg.view_of(), views(segments@), cursor as int)
                == Some((next as int, add as int, param_views(captured@))) && next <= segments@.len()
                && add <= 100,
            None => step_of(seg.view_of(), views(segments@), cursor as int) is None,
        },
{
    match seg {
        PathSegment::Static(expected) => {
            if cursor >= segments.len() {
                return None;
            }
            let expected_chars = chars_of(expected.as_str());
            if !chars_equal(&segments[cursor], &expected_chars) {
                return None;
            }
            let captured: Vec<(String, String)> = Vec::new();
            assert(param_views(captured@) =~= Seq::<(Seq<char>, Seq<char>)>::empty());
            Some((cursor + 1, 100, captured))
        },
        PathSegment::Parameter(name) => {
            if cursor >= segments.len() {
                return None;
            }
            let value = match decode_segment(&segments[cursor]) {
                Some(v) => v,
                None => {
                    return None;
                },
            };
            let mut captured: Vec<(String, String)> = Vec::new();
            captured.push((name.clone(), string_of(&value)));
            assert(param_views(captured@) =~= seq![(name@, value@)]);
            Some((cursor + 1, 10, captured))
        },
        PathSegment::Wildcard(name) => {
            let value = match decode_rest(segments, cursor) {
                Some(v) => v,
                None => {
                    return None;
                },
            };
            let mut captured: Vec<(String, String)> = Vec::new();
            captured.push((name.clone(), string_of(&value)));
            assert(param_views(captured@) =~= seq![(name@, value@)]);
            Some((segments.len(), 1, captured))
        },
    }
}

/// Appends all of `b` to `a`.
fn append_params(a: &mut Vec<(String, String)>, b: Vec<(String, String)>)
    ensures
        param_views(final(a)@) == param_views(old(a)@) + param_views(b@),
{
    let ghost start = param_views(a@);
    let mut b = b;
    let mut taken: Vec<(String, String)> = Vec::new();
    let ghost all = param_views(b@);
    let mut i: usize = 0;
    let n = b.len();
    while i < n
        invariant
            n == b@.len(),
            all == param_views(b@),
            i <= n,
            param_views(a@) == start + all.take(i as int),
        decreases n - i,
    {
        let ghost before = param_views(a@);
        let name = b[i].0.clone();
        let value = b[i].1.clone();
        a.push((name, value));
        assert(param_views(a@) =~= before.push(all[i as int]));
        assert(all.take(i + 1) =~= all.take(i as int).push(all[i as int]));
        i = i + 1;
    }
    assert(all.take(n as int) =~= all);
}

/// `/` followed by the pieces joined with `/`.
fn absolute_from_pieces(pieces: &Vec<Vec<char>>) -> (r: Vec<char>)
    ensures
        r@ == absolute_path(views(pieces@)),
{
    let mut r: Vec<char> = Vec::new();
    r.push('/');
    let joined = join_pieces(pieces, '/');
    crate::text::append_chars(&mut r, &joined);
    r
}

/// The first `n` pieces.
fn take_pieces(v: &Vec<Vec<char>>, n: usize) -> (r: Vec<Vec<char>>)
    requires
        n <= v@.len(),
    ensures
        views(r@) == views(v@).take(n as int),
{
    let mut r: Vec<Vec<char>> = Vec::new();
    let mut i: usize = 0;
    while i < n
        invariant
            i <= n <= v@.len(),
            views(r@) == views(v@).take(i as int),
        decreases n - i,
    {
        let ghost before = views(r@);
        let c = crate::text::slice_chars(&v[i], 0, v[i].len());
        assert(c@ =~= v@[i as int]@);
        r.push(c);
        assert(views(r@) =~= before.push(v@[i as int]@));
        assert(views(v@).take(i + 1) =~= views(v@).take(i as int).push(v@[i as int]@));
        i = i + 1;
    }
    r
}

/// Decodes one location segment.
fn decode_segment(segment: &Vec<char>) -> (r: Option<Vec<char>>)
    ensures
        match r {
            Some(v) => percent_decode_of(segment@) == Some(v@),
            None => percent_decode_of(segment@) is None,
        },
{
    let s = string_of(segment);
    match percent_decode(s.as_str()) {
        Some(d) => Some(chars_of(d.as_str())),
        None => None,
    }
}

/// Decodes `segments[from..]` and joins the results with `/`.
fn decode_rest(segments: &Vec<Vec<char>>, from: usize) -> (r: Option<Vec<char>>)
    requires
        from <= segments@.len(),
    ensures
        match r {
            Some(v) => decode_all(views(segments@).skip(from as int)) matches Some(values) && v@
                == join_with(values, '/'),
            None => decode_all(views(segments@).skip(from as int)) is None,
        },
{
    let ghost all = views(segments@).skip(from as int);
    let mut values: Vec<Vec<char>> = Vec::new();
    let mut i = from;
    assert(all.take(0) =~= Seq::<Seq<char>>::empty());
    while i < segments.len()
        invariant
            from <= i <= segments@.len(),
            all == views(segments@).skip(from as int),
            decode_all(all.take(i - from)) == Some(views(values@)),
        decreases segments@.len() - i,
    {
        assert(all.take(i + 1 - from).drop_last() =~= all.take(i - from));
        assert(all.take(i + 1 - from).last() == segments@[i as int]@);
        match decode_segment(&segments[i]) {
            Some(v) => {
                let ghost before = views(values@);
                values.push(v);
                assert(views(values@) =~= before.push(v@));
            },
            None => {
                proof {
                    lemma_decode_all_prefix_none(all, i + 1 - from);
                }
                return None;
            },
        }
        i = i + 1;
    }
    assert(all.take(i - from) =~= all);
    Some(join_pieces(&values, '/'))
}

/// Once a prefix fails to decode, every longer prefix fails too.
proof fn lemma_decode_all_prefix_none(all: Seq<Seq<char>>, n: int)
    requires
        0 <= n <= all.len(),
        decode_all(all.take(n)) is None,
    ensures
        decode_all(all) is None,
    decreases all.len() - n,
{
    if n < all.len() {
        assert(all.take(n + 1).drop_last() =~= all.take(n));
        lemma_decode_all_prefix_none(all, n + 1);
    } else {
        assert(all.take(n) =~= all);
    }
}

impl PathPattern {
    #[verifier::type_invariant]
    spec fn score_fits(self) -> bool {
        max_pattern_score(self.segments@.len() as int) <= u32::MAX
    }

    pub closed spec fn absolute_spec(&self) -> bool {
        self.absolute
    }

    /// Parses a route pattern.
    pub fn parse(source: &'static str) -> (r: PathPattern)
        requires
            pattern_is_valid(source@),
        ensures
            r@ == (PatternView {
                source: source@,
                absolute: source@[0] == '/',
                segments: pattern_segments_of(source@),
            }),
    {
        let chars = chars_of(source);
        let absolute = chars.len() > 0 && chars[0] == '/';
        let raw = super::location::path_segments(&chars);
        let segments = segments_from(&raw);
        assert(segment_views(segments@).len() == segments@.len());
        PathPattern { source, absolute, segments }
    }

    /// The highest score one match of this pattern can reach.
    pub fn max_score(&self) -> (r: u32)
        ensures
            r == max_pattern_score(self@.segments.len() as int),
    {
        proof {
            use_type_invariant(self);
        }
        1 + 100 * (self.segments.len() as u32)
    }

    /// Matches this pattern against `location`, starting at segment `offset`.
    pub fn match_location(&self, location: &Location, offset: usize) -> (r: Option<MatchStep>)
        requires
            match_is_defined(self@, location@, offset as int),
        ensures
            match r {
                Some(step) => match_location_of(self@, location@, offset as int) == Some(step.view_of())
                    && step.score <= max_pattern_score(self@.segments.len() as int)
                    && step.next_offset <= path_segments_of(location@.path).len(),
                None => match_location_of(self@, location@, offset as int) is None,
            },
    {
        proof {
            use_type_invariant(self);
        }
        if self.absolute && offset != 0 {
            return None;
        }
        let segments = location.segments();
        if offset > segments.len() {
            proof {
                let pat = self@.segments;
                assert(pat.len() > 0);
                lemma_unfold_match(pat, views(segments@), offset as int);
            }
            return None;
        }
        match match_all(&self.segments, &segments, offset) {
            Some((cursor, add, params)) => {
                let prefix = take_pieces(&segments, cursor);
                let pathname = absolute_from_pieces(&prefix);
                Some(
                    MatchStep {
                        next_offset: cursor,
                        can_end: cursor == segments.len(),
                        score: 1 + add,
                        pathname: Some(string_of(&pathname)),
                        params,
                        location: Some(location.duplicate()),
                    },
                )
            },
            None => None,
        }
    }
}

/// Matches all pattern segments from `offset`.
fn match_all(pattern: &Vec<PathSegment>, segments: &Vec<Vec<char>>, offset: usize) -> (r: Option<
    (usize, u32, Vec<(String, String)>),
>)
    requires
        offset <= segments@.len(),
        max_pattern_score(pattern@.len() as int) <= u32::MAX,
    ensures
        match r {
            Some((cursor, add, params)) => match_segments(
                segment_views(pattern@),
                views(segments@),
                offset as int,
            ) == Some((cursor as int, add as int, param_views(params@))) && cursor
                <= segments@.len() && add <= 100 * pattern@.len(),
            None => match_segments(segment_views(pattern@), views(segments@), offset as int) is None,
        },
{
    let ghost segs = views(segments@);
    let ghost pat = segment_views(pattern@);
    let n = pattern.len();
    let mut cursor = offset;
    let mut params: Vec<(String, String)> = Vec::new();
    let mut score: u32 = 0;
    let mut k: usize = 0;
    assert(pat.skip(0) =~= pat);
    assert(param_views(params@) =~= Seq::<(Seq<char>, Seq<char>)>::empty());
    proof {
        match match_segments(pat, segs, offset as int) {
            Some((c, s, p)) => {
                assert(Seq::<(Seq<char>, Seq<char>)>::empty() + p =~= p);
            },
            None => {},
        }
    }
    while k < n
        invariant
            n == pattern@.len(),
            pat == segment_views(pattern@),
            segs == views(segments@),
            k <= n,
            max_pattern_score(n as int) <= u32::MAX,
            score <= 100 * k,
            cursor <= segs.len(),
            match_segments(pat, segs, offset as int) == combine_match(
                score as int,
                param_views(params@),
                match_segments(pat.skip(k as int), segs, cursor as int),
            ),
        decreases n - k,
    {
        let ghost rest = pat.skip(k as int);
        assert(rest.drop_first() =~= pat.skip(k + 1));
        assert(rest[0] == pattern@[k as int].view_of());
        proof {
            lemma_unfold_match(rest, segs, cursor as int);
        }
        let ghost before = param_views(params@);
        let ghost old_score = score;
        match match_step(&pattern[k], segments, cursor) {
            Some((next, add, captured)) => {
                proof {
                    lemma_combine_assoc(
                        old_score as int,
                        before,
                        add as int,
                        param_views(captured@),
                        match_segments(pat.skip(k + 1), segs, next as int),
                    );
                }
                append_params(&mut params, captured);
                cursor = next;
                score = score + add;
            },
            None => {
                return None;
            },
        }
        k = k + 1;
    }
    assert(pat.skip(k as int) =~= Seq::<SegmentView>::empty());
    assert(param_views(params@) + Seq::<(Seq<char>, Seq<char>)>::empty() =~= param_views(params@));
    Some((cursor, score, params))
}

} // verus!
