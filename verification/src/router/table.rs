use vstd::prelude::*;

use super::location::{
    absolute_path, location_of, path_segments, path_segments_of, starts_with_char, Location, LocationView,
};
use crate::geometry::min_int;
use crate::text::{
    append_chars, chars_equal, chars_of, join_pieces, non_empty, slice_chars, split_chars,
    split_pieces,
    str_equal, views,
};
use super::matches::{RouteId, RouteMatch, RouteMatchView, RouteMatches, RouteMatchesView};
use super::params::{insert_all, PathParams};
use super::pattern::{
    law_match_score_is_segment_weights, match_location_of, max_pattern_score, param_views,
    pattern_is_valid, pattern_weight, MatchStep, PathPattern, PatternView, StepView,
};

verus! {

broadcast use vstd::seq_lib::group_seq_properties;

/// How a route takes part in matching.
pub enum RouteKind {
    /// Matches a path pattern.
    Path(PathPattern),
    /// The default child of a parent path.
    Index,
    /// A pathless grouping of children.
    Layout,
    /// A sibling fallback, tried only after all normal siblings.
    Fallback,
}

/// A declarative route: a pattern, its kind of matching, children and optional metadata.
pub struct Route<H> {
    pub(crate) pattern: &'static str,
    pub(crate) kind: RouteKind,
    pub(crate) children: Vec<Route<H>>,
    pub(crate) handle: Option<H>,
    pub(crate) id: RouteId,
    pub(crate) redirect: Option<Location>,
}

impl<H> Route<H> {
    pub closed spec fn spec_pattern(self) -> Seq<char> {
        self.pattern@
    }

    pub closed spec fn spec_children(self) -> Seq<Route<H>> {
        self.children@
    }

    pub closed spec fn spec_handle(self) -> Option<H> {
        self.handle
    }

    pub closed spec fn spec_kind(self) -> RouteKind {
        self.kind
    }

    /// Where the route redirects to, if it is a redirect.
    pub closed spec fn spec_redirect(self) -> Option<LocationView> {
        match self.redirect {
            Some(l) => Some(l@),
            None => None,
        }
    }

    pub closed spec fn spec_id(self) -> u64 {
        self.id.0
    }

    /// Same pattern, kind and identifier.
    pub closed spec fn same_route_as(self, other: Route<H>) -> bool {
        &&& self.pattern == other.pattern
        &&& self.kind == other.kind
        &&& self.id == other.id
        &&& self.spec_redirect() == other.spec_redirect()
    }

    pub closed spec fn is_fallback(self) -> bool {
        self.kind is Fallback
    }

    pub closed spec fn is_layout(self) -> bool {
        self.kind is Layout
    }

    pub closed spec fn is_index(self) -> bool {
        self.kind is Index
    }

    /// The parsed pattern of a path route.
    pub closed spec fn path_pattern(self) -> Option<PatternView> {
        match self.kind {
            RouteKind::Path(p) => Some(p@),
            _ => None,
        }
    }
}

/// The score one match of this route can add at most.
pub open spec fn step_max<H>(route: Route<H>) -> int {
    match route.path_pattern() {
        Some(p) => max_pattern_score(p.segments.len() as int),
        None => if route.is_index() {
            5
        } else {
            0
        },
    }
}

/// The largest score a branch through one of `routes[..n]` can reach.
pub open spec fn max_score_upto<H>(routes: Seq<Route<H>>, n: int) -> int
    decreases routes, 0nat, n,
{
    if n <= 0 || n > routes.len() {
        0
    } else {
        let rest = max_score_upto(routes, n - 1);
        let here = step_max(routes[n - 1]) + max_score(routes[n - 1].spec_children());
        if here > rest {
            here
        } else {
            rest
        }
    }
}

/// The largest score a branch through these routes can reach.
pub open spec fn max_score<H>(routes: Seq<Route<H>>) -> int
    decreases routes, 1nat,
{
    max_score_upto(routes, routes.len() as int)
}

proof fn lemma_max_score_upto<H>(routes: Seq<Route<H>>, n: int, i: int)
    requires
        0 <= i < n <= routes.len(),
    ensures
        step_max(routes[i]) + max_score(routes[i].spec_children()) <= max_score_upto(routes, n),
        0 <= max_score_upto(routes, n),
    decreases n,
{
    if i < n - 1 {
        lemma_max_score_upto(routes, n - 1, i);
    }
    lemma_max_score_nonneg(routes, n - 1);
}

proof fn lemma_max_score_nonneg<H>(routes: Seq<Route<H>>, n: int)
    ensures
        0 <= max_score_upto(routes, n),
    decreases n,
{
    if n > 0 && n <= routes.len() {
        lemma_max_score_nonneg(routes, n - 1);
    }
}

proof fn lemma_children_score<H>(routes: Seq<Route<H>>, i: int)
    requires
        0 <= i < routes.len(),
    ensures
        step_max(routes[i]) + max_score(routes[i].spec_children()) <= max_score(routes),
        0 <= max_score(routes[i].spec_children()),
        0 <= step_max(routes[i]),
{
    lemma_max_score_upto(routes, routes.len() as int, i);
    lemma_max_score_nonneg(routes[i].spec_children(), routes[i].spec_children().len() as int);
}

/// The step a route takes at `offset`; a layout passes its parent's pathname on.
pub open spec fn try_match_of<H>(
    route: Route<H>,
    l: LocationView,
    offset: int,
    parent_pathname: Seq<char>,
) -> Option<StepView> {
    let count = path_segments_of(l.path).len() as int;
    match route.path_pattern() {
        Some(p) => match_location_of(p, l, offset),
        None => if route.is_index() {
            if offset == count {
                Some(
                    StepView {
                        next_offset: offset,
                        can_end: true,
                        score: 5,
                        pathname: None,
                        params: Seq::empty(),
                        location: Some(l),
                    },
                )
            } else {
                None
            }
        } else if route.is_layout() {
            Some(
                StepView {
                    next_offset: offset,
                    can_end: false,
                    score: 0,
                    pathname: Some(parent_pathname),
                    params: Seq::empty(),
                    location: None,
                },
            )
        } else {
            Some(
                StepView {
                    next_offset: count,
                    can_end: true,
                    score: 0,
                    pathname: Some(l.path),
                    params: Seq::empty(),
                    location: Some(l),
                },
            )
        },
    }
}

/// Parameters added to those of the parents, unless a name is already taken.
pub open spec fn extend_params_of(
    params: Map<Seq<char>, Seq<char>>,
    added: Seq<(Seq<char>, Seq<char>)>,
) -> Option<Map<Seq<char>, Seq<char>>> {
    if exists|i: int| 0 <= i < added.len() && params.contains_key(#[trigger] added[i].0) {
        None
    } else {
        Some(insert_all(params, added))
    }
}

/// One resolved route of a branch.
pub struct NodeView<H> {
    pub matched: RouteMatchView<H>,
    pub location: Option<LocationView>,
}

/// A complete branch and its score.
pub struct CandidateView<H> {
    pub nodes: Seq<NodeView<H>>,
    pub score: int,
}

/// The best complete branch through `route`, if any.
pub open spec fn candidate_of<H>(
    route: Route<H>,
    l: LocationView,
    offset: int,
    parent_pathname: Seq<char>,
    params: Map<Seq<char>, Seq<char>>,
    fallback: bool,
) -> Option<CandidateView<H>>
    decreases route, 0nat, 0int,
{
    if route.is_fallback() != fallback {
        None
    } else {
        match try_match_of(route, l, offset, parent_pathname) {
            None => None,
            Some(step) => match extend_params_of(params, step.params) {
                None => None,
                Some(merged) => {
                    let pathname = match step.pathname {
                        Some(p) => p,
                        None => parent_pathname,
                    };
                    let node = NodeView {
                        matched: RouteMatchView {
                            id: route.spec_id(),
                            pattern: route.spec_pattern(),
                            pathname,
                            params: merged,
                            handle: route.spec_handle(),
                        },
                        location: step.location,
                    };
                    match resolve_routes_of(
                        route.spec_children(),
                        l,
                        step.next_offset,
                        pathname,
                        merged,
                    ) {
                        Some(children) => Some(
                            CandidateView {
                                nodes: seq![node] + children.nodes,
                                score: step.score + children.score,
                            },
                        ),
                        None => if step.can_end {
                            Some(CandidateView { nodes: seq![node], score: step.score })
                        } else {
                            None
                        },
                    }
                },
            },
        }
    }
}

/// The best candidate among `routes[..n]` of one pass: a later candidate wins only with a
/// strictly higher score.
pub open spec fn resolve_pass_of<H>(
    routes: Seq<Route<H>>,
    n: int,
    l: LocationView,
    offset: int,
    parent_pathname: Seq<char>,
    params: Map<Seq<char>, Seq<char>>,
    fallback: bool,
) -> Option<CandidateView<H>>
    decreases routes, 1nat, n,
{
    if n <= 0 || n > routes.len() {
        None
    } else {
        let best = resolve_pass_of(routes, n - 1, l, offset, parent_pathname, params, fallback);
        match candidate_of(routes[n - 1], l, offset, parent_pathname, params, fallback) {
            Some(c) => match best {
                Some(b) => if c.score > b.score {
                    Some(c)
                } else {
                    Some(b)
                },
                None => Some(c),
            },
            None => best,
        }
    }
}

/// The best branch through `routes`: normal routes first, fallbacks only when no normal
/// route completes a branch.
pub open spec fn resolve_routes_of<H>(
    routes: Seq<Route<H>>,
    l: LocationView,
    offset: int,
    parent_pathname: Seq<char>,
    params: Map<Seq<char>, Seq<char>>,
) -> Option<CandidateView<H>>
    decreases routes, 2nat, 0int,
{
    match resolve_pass_of(routes, routes.len() as int, l, offset, parent_pathname, params, false) {
        Some(c) => Some(c),
        None => resolve_pass_of(routes, routes.len() as int, l, offset, parent_pathname, params, true),
    }
}

/// Among the first `n` routes of one pass, the branch chosen is the best branch through one
/// of them; it scores at least as much as the best branch through each of the others, and
/// strictly more than that through every earlier sibling, so ties go to the earlier one.
/// Nothing is chosen exactly when no route of the pass completes a branch.
pub proof fn law_pass_picks_highest_score<H>(
    routes: Seq<Route<H>>,
    n: int,
    l: LocationView,
    offset: int,
    parent_pathname: Seq<char>,
    params: Map<Seq<char>, Seq<char>>,
    fallback: bool,
)
    requires
        0 <= n <= routes.len(),
    ensures
        ({
            let best = resolve_pass_of(routes, n, l, offset, parent_pathname, params, fallback);
            &&& best is None <==> forall|j: int|
                0 <= j < n ==> #[trigger] candidate_of(routes[j], l, offset, parent_pathname, params, fallback)
                    is None
            &&& best matches Some(b) ==> exists|i: int|
                0 <= i < n && #[trigger] candidate_of(routes[i], l, offset, parent_pathname, params, fallback)
                    == Some(b) && forall|j: int|
                    0 <= j < i ==> (#[trigger] candidate_of(routes[j], l, offset, parent_pathname, params, fallback)
                        matches Some(c) ==> c.score < b.score)
            &&& best matches Some(b) ==> forall|j: int|
                0 <= j < n ==> (#[trigger] candidate_of(routes[j], l, offset, parent_pathname, params, fallback)
                    matches Some(c) ==> c.score <= b.score)
        }),
    decreases n,
{
    if n > 0 {
        law_pass_picks_highest_score(routes, n - 1, l, offset, parent_pathname, params, fallback);
        let best = resolve_pass_of(routes, n - 1, l, offset, parent_pathname, params, fallback);
        let last = candidate_of(routes[n - 1], l, offset, parent_pathname, params, fallback);
        let chosen = resolve_pass_of(routes, n, l, offset, parent_pathname, params, fallback);
        match last {
            Some(c) => match best {
                Some(b) => {
                    if c.score > b.score {
                        assert(chosen == Some(c));
                        assert forall|j: int| 0 <= j < n - 1 implies (#[trigger] candidate_of(
                            routes[j],
                            l,
                            offset,
                            parent_pathname,
                            params,
                            fallback,
                        ) matches Some(d) ==> d.score < c.score) by {}
                        assert(candidate_of(routes[n - 1], l, offset, parent_pathname, params, fallback) == Some(c));
                    } else {
                        assert(chosen == Some(b));
                        let i = choose|i: int|
                            0 <= i < n - 1 && #[trigger] candidate_of(routes[i], l, offset, parent_pathname, params, fallback)
                                == Some(b) && forall|j: int|
                                0 <= j < i ==> (#[trigger] candidate_of(routes[j], l, offset, parent_pathname, params, fallback)
                                    matches Some(d) ==> d.score < b.score);
                        assert(candidate_of(routes[i], l, offset, parent_pathname, params, fallback) == Some(b));
                    }
                },
                None => {
                    assert(chosen == Some(c));
                    assert(candidate_of(routes[n - 1], l, offset, parent_pathname, params, fallback) == Some(c));
                    assert forall|j: int| 0 <= j < n - 1 implies #[trigger] candidate_of(
                        routes[j],
                        l,
                        offset,
                        parent_pathname,
                        params,
                        fallback,
                    ) is None by {}
                },
            },
            None => {
                assert(chosen == best);
                match best {
                    Some(b) => {
                        let i = choose|i: int|
                            0 <= i < n - 1 && #[trigger] candidate_of(routes[i], l, offset, parent_pathname, params, fallback)
                                == Some(b) && forall|j: int|
                                0 <= j < i ==> (#[trigger] candidate_of(routes[j], l, offset, parent_pathname, params, fallback)
                                    matches Some(d) ==> d.score < b.score);
                        assert(candidate_of(routes[i], l, offset, parent_pathname, params, fallback) == Some(b));
                    },
                    None => {},
                }
            },
        }
    }
}

/// The branch matched at a level comes from its normal routes whenever one of them
/// completes a branch; fallback routes are tried only when none does.
pub proof fn law_fallbacks_only_after_normal_routes<H>(
    routes: Seq<Route<H>>,
    l: LocationView,
    offset: int,
    parent_pathname: Seq<char>,
    params: Map<Seq<char>, Seq<char>>,
)
    ensures
        (exists|j: int|
            0 <= j < routes.len() && #[trigger] candidate_of(routes[j], l, offset, parent_pathname, params, false)
                is Some) ==> resolve_routes_of(routes, l, offset, parent_pathname, params)
            == resolve_pass_of(routes, routes.len() as int, l, offset, parent_pathname, params, false),
        (forall|j: int|
            0 <= j < routes.len() ==> #[trigger] candidate_of(routes[j], l, offset, parent_pathname, params, false)
                is None) ==> resolve_routes_of(routes, l, offset, parent_pathname, params)
            == resolve_pass_of(routes, routes.len() as int, l, offset, parent_pathname, params, true),
{
    law_pass_picks_highest_score(routes, routes.len() as int, l, offset, parent_pathname, params, false);
}

/// A route with a path pattern and no children completes a branch only with its own
/// match, scoring one plus the weights of its pattern's segments.
pub proof fn law_leaf_route_scores_its_pattern<H>(
    route: Route<H>,
    l: LocationView,
    offset: int,
    parent_pathname: Seq<char>,
    params: Map<Seq<char>, Seq<char>>,
    fallback: bool,
)
    requires
        route.spec_children().len() == 0,
        route.path_pattern() is Some,
    ensures
        candidate_of(route, l, offset, parent_pathname, params, fallback) matches Some(c) ==> c.score == 1
            + pattern_weight(route.path_pattern()->0.segments),
{
    law_match_score_is_segment_weights(route.path_pattern()->0, l, offset);
    assert(resolve_pass_of(route.spec_children(), 0, l, offset, parent_pathname, params, false) is None);
    assert(resolve_pass_of(route.spec_children(), 0, l, offset, parent_pathname, params, true) is None);
}

/// Of two sibling leaf routes that both complete a branch, the one whose pattern weighs
/// more is the one a pass can pick, whichever is declared first: the branch chosen never
/// is that of the lighter pattern, and scores at least as much as the heavier one's.
pub proof fn law_heavier_pattern_wins_among_leaves<H>(
    routes: Seq<Route<H>>,
    i: int,
    j: int,
    l: LocationView,
    offset: int,
    parent_pathname: Seq<char>,
    params: Map<Seq<char>, Seq<char>>,
    fallback: bool,
)
    requires
        0 <= i < routes.len(),
        0 <= j < routes.len(),
        routes[i].spec_children().len() == 0,
        routes[j].spec_children().len() == 0,
        routes[i].path_pattern() is Some,
        routes[j].path_pattern() is Some,
        pattern_weight(routes[i].path_pattern()->0.segments) > pattern_weight(
            routes[j].path_pattern()->0.segments,
        ),
        candidate_of(routes[i], l, offset, parent_pathname, params, fallback) is Some,
        candidate_of(routes[j], l, offset, parent_pathname, params, fallback) is Some,
    ensures
        ({
            let chosen = resolve_pass_of(routes, routes.len() as int, l, offset, parent_pathname, params, fallback);
            &&& chosen is Some
            &&& chosen != candidate_of(routes[j], l, offset, parent_pathname, params, fallback)
            &&& chosen->0.score >= 1 + pattern_weight(routes[i].path_pattern()->0.segments)
        }),
{
    law_pass_picks_highest_score(routes, routes.len() as int, l, offset, parent_pathname, params, fallback);
    law_leaf_route_scores_its_pattern(routes[i], l, offset, parent_pathname, params, fallback);
    law_leaf_route_scores_its_pattern(routes[j], l, offset, parent_pathname, params, fallback);
}

/// What a router reports for a location is the best branch from its root routes: there
/// are matches exactly when some root route completes a branch; they list that branch's
/// routes; the branch comes from the normal root routes whenever one of them completes a
/// branch, scoring at least as much as the best branch through each of them, and from
/// the fallbacks only otherwise.
pub proof fn law_router_reports_the_best_branch<H>(routes: Seq<Route<H>>, l: LocationView)
    ensures
        ({
            let root = resolve_routes_of(routes, l, 0, seq!['/'], Map::<Seq<char>, Seq<char>>::empty());
            &&& matches_of(routes, l) is Some <==> root is Some
            &&& root matches Some(c) ==> matches_of(routes, l)->0.entries == c.nodes.map_values(
                |n: NodeView<H>| n.matched,
            )
            &&& (exists|j: int|
                0 <= j < routes.len() && #[trigger] candidate_of(
                    routes[j],
                    l,
                    0,
                    seq!['/'],
                    Map::<Seq<char>, Seq<char>>::empty(),
                    false,
                ) is Some) ==> (root matches Some(c) && forall|j: int|
                0 <= j < routes.len() ==> (#[trigger] candidate_of(
                    routes[j],
                    l,
                    0,
                    seq!['/'],
                    Map::<Seq<char>, Seq<char>>::empty(),
                    false,
                ) matches Some(d) ==> d.score <= c.score))
            &&& (forall|j: int|
                0 <= j < routes.len() ==> #[trigger] candidate_of(
                    routes[j],
                    l,
                    0,
                    seq!['/'],
                    Map::<Seq<char>, Seq<char>>::empty(),
                    false,
                ) is None) ==> root == resolve_pass_of(
                routes,
                routes.len() as int,
                l,
                0,
                seq!['/'],
                Map::<Seq<char>, Seq<char>>::empty(),
                true,
            )
        }),
{
    let empty = Map::<Seq<char>, Seq<char>>::empty();
    law_pass_picks_highest_score(routes, routes.len() as int, l, 0, seq!['/'], empty, false);
    law_fallbacks_only_after_normal_routes(routes, l, 0, seq!['/'], empty);
}

/// The first location that a node of the branch carries.
pub open spec fn first_location<H>(nodes: Seq<NodeView<H>>) -> Option<LocationView>
    decreases nodes.len(),
{
    if nodes.len() == 0 {
        None
    } else if nodes[0].location is Some {
        nodes[0].location
    } else {
        first_location(nodes.drop_first())
    }
}

/// The matches a router reports for a location.
pub open spec fn matches_of<H>(routes: Seq<Route<H>>, l: LocationView) -> Option<
    RouteMatchesView<H>,
> {
    match resolve_routes_of(routes, l, 0, seq!['/'], Map::empty()) {
        Some(c) => Some(
            RouteMatchesView {
                location: first_location(c.nodes),
                entries: c.nodes.map_values(|n: NodeView<H>| n.matched),
            },
        ),
        None => None,
    }
}

struct ResolvedNode<H> {
    matched: RouteMatch<H>,
    location: Option<Location>,
}

impl<H> ResolvedNode<H> {
    spec fn view_of(self) -> NodeView<H> {
        NodeView {
            matched: self.matched@,
            location: match self.location {
                Some(l) => Some(l@),
                None => None,
            },
        }
    }
}

struct ResolvedCandidate<H> {
    nodes: Vec<ResolvedNode<H>>,
    score: u32,
}

impl<H> ResolvedCandidate<H> {
    spec fn view_of(self) -> CandidateView<H> {
        CandidateView {
            nodes: self.nodes@.map_values(|n: ResolvedNode<H>| n.view_of()),
            score: self.score as int,
        }
    }
}

spec fn candidate_views<H>(c: Option<ResolvedCandidate<H>>) -> Option<CandidateView<H>> {
    match c {
        Some(c) => Some(c.view_of()),
        None => None,
    }
}

fn copy_params(v: &Vec<(String, String)>) -> (r: Vec<(String, String)>)
    ensures
        param_views(r@) == param_views(v@),
{
    let mut r: Vec<(String, String)> = Vec::new();
    let mut i: usize = 0;
    while i < v.len()
        invariant
            i <= v@.len(),
            param_views(r@) == param_views(v@).take(i as int),
        decreases v@.len() - i,
    {
        let ghost before = param_views(r@);
        r.push((v[i].0.clone(), v[i].1.clone()));
        assert(param_views(r@) =~= before.push(param_views(v@)[i as int]));
        assert(param_views(v@).take(i + 1) =~= param_views(v@).take(i as int).push(
            param_views(v@)[i as int],
        ));
        i = i + 1;
    }
    assert(param_views(v@).take(i as int) =~= param_views(v@));
    r
}

impl<H: Copy> Route<H> {
    /// The step this route takes at `offset`.
    fn try_match(&self, target: &Location, offset: usize, parent_pathname: &String) -> (r: Option<
        MatchStep,
    >)
        requires
            offset <= path_segments_of(target@.path).len(),
        ensures
            match r {
                Some(step) => try_match_of(*self, target@, offset as int, parent_pathname@) == Some(
                    step.view_of(),
                ) && step.score <= step_max(*self) && step.next_offset <= path_segments_of(
                    target@.path,
                ).len(),
                None => try_match_of(*self, target@, offset as int, parent_pathname@) is None,
            },
    {
        match &self.kind {
            RouteKind::Path(pattern) => pattern.match_location(target, offset),
            RouteKind::Index => {
                let count = target.segments().len();
                if offset == count {
                    let params: Vec<(String, String)> = Vec::new();
                    let step = MatchStep {
                        next_offset: offset,
                        can_end: true,
                        score: 5,
                        pathname: None,
                        params,
                        location: Some(target.duplicate()),
                    };
                    assert(step.view_of().params =~= Seq::<(Seq<char>, Seq<char>)>::empty());
                    Some(step)
                } else {
                    None
                }
            },
            RouteKind::Layout => {
                let params: Vec<(String, String)> = Vec::new();
                let step = MatchStep {
                    next_offset: offset,
                    can_end: false,
                    score: 0,
                    pathname: Some(parent_pathname.clone()),
                    params,
                    location: None,
                };
                assert(step.view_of().params =~= Seq::<(Seq<char>, Seq<char>)>::empty());
                Some(step)
            },
            RouteKind::Fallback => {
                let count = target.segments().len();
                let params: Vec<(String, String)> = Vec::new();
                let step = MatchStep {
                    next_offset: count,
                    can_end: true,
                    score: 0,
                    pathname: Some(target.path().to_owned()),
                    params,
                    location: Some(target.duplicate()),
                };
                assert(step.view_of().params =~= Seq::<(Seq<char>, Seq<char>)>::empty());
                Some(step)
            },
        }
    }
}

/// The best complete branch through `route`.
fn candidate<H: Copy>(
    route: &Route<H>,
    target: &Location,
    offset: usize,
    parent_pathname: &String,
    parent_params: &PathParams,
    fallback: bool,
) -> (r: Option<ResolvedCandidate<H>>)
    requires
        offset <= path_segments_of(target@.path).len(),
        step_max(*route) + max_score(route.spec_children()) <= u32::MAX,
        0 <= max_score(route.spec_children()),
        0 <= step_max(*route),
    ensures
        candidate_views(r) == candidate_of(
            *route,
            target@,
            offset as int,
            parent_pathname@,
            parent_params@,
            fallback,
        ),
        r matches Some(c) ==> c.score <= step_max(*route) + max_score(route.spec_children()),
    decreases *route, 0nat, 0int,
{
    let is_fallback = match route.kind {
        RouteKind::Fallback => true,
        _ => false,
    };
    if is_fallback != fallback {
        return None;
    }
    let step = match route.try_match(target, offset, parent_pathname) {
        Some(step) => step,
        None => {
            return None;
        },
    };
    let mut params = parent_params.clone();
    let values = copy_params(&step.params);
    let ghost value_seq = values@;
    assert(param_views(value_seq) == super::params::pair_views(value_seq));
    if !params.extend(values) {
        proof {
            let i = choose|i: int|
                0 <= i < value_seq.len() && parent_params@.contains_key(#[trigger] value_seq[i].0@);
            assert(param_views(value_seq)[i].0 == value_seq[i].0@);
        }
        return None;
    }
    proof {
        assert forall|i: int| 0 <= i < param_views(value_seq).len() implies !parent_params@.contains_key(
            #[trigger] param_views(value_seq)[i].0,
        ) by {
            assert(param_views(value_seq)[i].0 == value_seq[i].0@);
        }
    }
    let pathname = match &step.pathname {
        Some(p) => p.clone(),
        None => parent_pathname.clone(),
    };
    let matched = RouteMatch::from_parts(route.id, route.pattern, pathname.clone(), params.clone(), route.handle);
    let node = ResolvedNode { matched, location: step.location };
    let ghost node_view = node.view_of();
    match resolve_routes(&route.children, target, step.next_offset, &pathname, &params) {
        Some(children) => {
            let mut nodes: Vec<ResolvedNode<H>> = Vec::new();
            nodes.push(node);
            let ghost child_views = children.view_of().nodes;
            let mut children = children;
            let mut rest = children.nodes;
            nodes.append(&mut rest);
            assert(nodes@.map_values(|n: ResolvedNode<H>| n.view_of()) =~= seq![node_view]
                + child_views);
            Some(ResolvedCandidate { nodes, score: step.score + children.score })
        },
        None => {
            if step.can_end {
                let mut nodes: Vec<ResolvedNode<H>> = Vec::new();
                nodes.push(node);
                assert(nodes@.map_values(|n: ResolvedNode<H>| n.view_of()) =~= seq![node_view]);
                Some(ResolvedCandidate { nodes, score: step.score })
            } else {
                None
            }
        },
    }
}

/// The best candidate of one pass over `routes`.
fn resolve_route_pass<H: Copy>(
    routes: &Vec<Route<H>>,
    target: &Location,
    offset: usize,
    parent_pathname: &String,
    parent_params: &PathParams,
    fallback: bool,
) -> (r: Option<ResolvedCandidate<H>>)
    requires
        offset <= path_segments_of(target@.path).len(),
        max_score(routes@) <= u32::MAX,
    ensures
        candidate_views(r) == resolve_pass_of(
            routes@,
            routes@.len() as int,
            target@,
            offset as int,
            parent_pathname@,
            parent_params@,
            fallback,
        ),
        r matches Some(c) ==> c.score <= max_score(routes@),
    decreases routes@, 1nat, routes@.len(),
{
    let mut best: Option<ResolvedCandidate<H>> = None;
    let mut i: usize = 0;
    while i < routes.len()
        invariant
            i <= routes@.len(),
            offset <= path_segments_of(target@.path).len(),
            max_score(routes@) <= u32::MAX,
            candidate_views(best) == resolve_pass_of(
                routes@,
                i as int,
                target@,
                offset as int,
                parent_pathname@,
                parent_params@,
                fallback,
            ),
            best matches Some(c) ==> c.score <= max_score(routes@),
        decreases routes@.len() - i,
    {
        proof {
            lemma_children_score(routes@, i as int);
        }
        assert(decreases_to!(routes@ => routes@[i as int]));
        match candidate(&routes[i], target, offset, parent_pathname, parent_params, fallback) {
            Some(c) => {
                let replace = match &best {
                    Some(b) => c.score > b.score,
                    None => true,
                };
                if replace {
                    best = Some(c);
                }
            },
            None => {},
        }
        i = i + 1;
    }
    best
}

/// The best branch through `routes`, trying fallbacks only after normal routes.
fn resolve_routes<H: Copy>(
    routes: &Vec<Route<H>>,
    target: &Location,
    offset: usize,
    parent_pathname: &String,
    parent_params: &PathParams,
) -> (r: Option<ResolvedCandidate<H>>)
    requires
        offset <= path_segments_of(target@.path).len(),
        max_score(routes@) <= u32::MAX,
    ensures
        candidate_views(r) == resolve_routes_of(
            routes@,
            target@,
            offset as int,
            parent_pathname@,
            parent_params@,
        ),
        r matches Some(c) ==> c.score <= max_score(routes@),
    decreases routes@, 2nat, 0int,
{
    match resolve_route_pass(routes, target, offset, parent_pathname, parent_params, false) {
        Some(c) => Some(c),
        None => resolve_route_pass(routes, target, offset, parent_pathname, parent_params, true),
    }
}

/// Values that can be turned into a list of sibling routes.
pub trait IntoRoutes<H>: Sized {
    spec fn routes_of(self) -> Seq<Route<H>>;

    fn into_routes(self) -> (r: Vec<Route<H>>)
        ensures
            r@ == self.routes_of(),
    ;
}

impl<H> IntoRoutes<H> for Route<H> {
    open spec fn routes_of(self) -> Seq<Route<H>> {
        seq![self]
    }

    fn into_routes(self) -> (r: Vec<Route<H>>) {
        let mut v = Vec::new();
        v.push(self);
        assert(v@ =~= seq![self]);
        v
    }
}

impl<H> IntoRoutes<H> for Vec<Route<H>> {
    open spec fn routes_of(self) -> Seq<Route<H>> {
        self@
    }

    fn into_routes(self) -> (r: Vec<Route<H>>) {
        self
    }
}

impl<H, A: IntoRoutes<H>, B: IntoRoutes<H>> IntoRoutes<H> for (A, B) {
    open spec fn routes_of(self) -> Seq<Route<H>> {
        self.0.routes_of() + self.1.routes_of()
    }

    fn into_routes(self) -> (r: Vec<Route<H>>) {
        let (a, b) = self;
        let mut routes = a.into_routes();
        let mut rest = b.into_routes();
        routes.append(&mut rest);
        routes
    }
}

impl<H, A: IntoRoutes<H>, B: IntoRoutes<H>, C: IntoRoutes<H>> IntoRoutes<H> for (A, B, C) {
    open spec fn routes_of(self) -> Seq<Route<H>> {
        self.0.routes_of() + self.1.routes_of() + self.2.routes_of()
    }

    fn into_routes(self) -> (r: Vec<Route<H>>) {
        let (a, b, c) = self;
        let mut routes = a.into_routes();
        let mut rest = b.into_routes();
        routes.append(&mut rest);
        let mut rest = c.into_routes();
        routes.append(&mut rest);
        routes
    }
}

impl<H, A: IntoRoutes<H>, B: IntoRoutes<H>, C: IntoRoutes<H>, D: IntoRoutes<H>> IntoRoutes<H> for (
    A,
    B,
    C,
    D,
) {
    open spec fn routes_of(self) -> Seq<Route<H>> {
        self.0.routes_of() + self.1.routes_of() + self.2.routes_of() + self.3.routes_of()
    }

    fn into_routes(self) -> (r: Vec<Route<H>>) {
        let (a, b, c, d) = self;
        let mut routes = a.into_routes();
        let mut rest = b.into_routes();
        routes.append(&mut rest);
        let mut rest = c.into_routes();
        routes.append(&mut rest);
        let mut rest = d.into_routes();
        routes.append(&mut rest);
        routes
    }
}

impl<
    H,
    A: IntoRoutes<H>,
    B: IntoRoutes<H>,
    C: IntoRoutes<H>,
    D: IntoRoutes<H>,
    E: IntoRoutes<H>,
> IntoRoutes<H> for (A, B, C, D, E) {
    open spec fn routes_of(self) -> Seq<Route<H>> {
        self.0.routes_of() + self.1.routes_of() + self.2.routes_of() + self.3.routes_of()
            + self.4.routes_of()
    }

    fn into_routes(self) -> (r: Vec<Route<H>>) {
        let (a, b, c, d, e) = self;
        let mut routes = a.into_routes();
        let mut rest = b.into_routes();
        routes.append(&mut rest);
        let mut rest = c.into_routes();
        routes.append(&mut rest);
        let mut rest = d.into_routes();
        routes.append(&mut rest);
        let mut rest = e.into_routes();
        routes.append(&mut rest);
        routes
    }
}

impl<H> Route<H> {
    /// The pattern this route was declared with (`<index>`, `<layout>` and
    /// `<not-found>` for the pathless kinds).
    pub fn path(&self) -> (r: &'static str)
        ensures
            r@ == self.spec_pattern(),
    {
        self.pattern
    }

    /// This route with `children` as its child routes.
    pub fn children<C: IntoRoutes<H>>(self, children: C) -> (r: Route<H>)
        ensures
            r.same_route_as(self),
            r.spec_handle() == self.spec_handle(),
            r.spec_children() == children.routes_of(),
            r.spec_pattern() == self.spec_pattern(),
            r.spec_kind() == self.spec_kind(),
            r.path_pattern() == self.path_pattern(),
            r.spec_id() == self.spec_id(),
            r.spec_redirect() == self.spec_redirect(),
    {
        let children = children.into_routes();
        Route { children, ..self }
    }

    /// Attaches application-owned metadata; matches report the nearest one.
    pub fn handle(self, handle: H) -> (r: Route<H>)
        ensures
            r.same_route_as(self),
            r.spec_children() == self.spec_children(),
            r.spec_handle() == Some(handle),
            r.spec_pattern() == self.spec_pattern(),
            r.spec_kind() == self.spec_kind(),
            r.path_pattern() == self.path_pattern(),
            r.spec_id() == self.spec_id(),
            r.spec_redirect() == self.spec_redirect(),
    {
        Route { handle: Some(handle), ..self }
    }
}

/// Defines a path-matched route. Root patterns are absolute and child patterns are
/// relative; `:name` captures one decoded segment and `*name` the decoded rest of the path.
pub fn route<H>(pattern: &'static str) -> (r: Route<H>)
    requires
        pattern_is_valid(pattern@),
    ensures
        r.spec_pattern() == pattern@,
        r.path_pattern() == Some(
            PatternView {
                source: pattern@,
                absolute: pattern@[0] == '/',
                segments: super::pattern::pattern_segments_of(pattern@),
            },
        ),
        r.spec_children().len() == 0,
        r.spec_handle() is None,
        r.spec_id() == 0,
        r.spec_redirect() is None,
{
    let parsed = PathPattern::parse(pattern);
    Route {
        pattern,
        kind: RouteKind::Path(parsed),
        children: Vec::new(),
        handle: None,
        id: RouteId(0),
        redirect: None,
    }
}

/// Defines the default child of a parent path.
pub fn index<H>() -> (r: Route<H>)
    ensures
        r.spec_pattern() == "<index>"@,
        r.is_index(),
        r.spec_children().len() == 0,
        r.spec_handle() is None,
        r.spec_id() == 0,
        r.spec_redirect() is None,
{
    Route {
        pattern: "<index>",
        kind: RouteKind::Index,
        children: Vec::new(),
        handle: None,
        id: RouteId(0),
        redirect: None,
    }
}

/// Defines a pathless layout around `children`.
pub fn layout<H, C: IntoRoutes<H>>(children: C) -> (r: Route<H>)
    ensures
        r.spec_pattern() == "<layout>"@,
        r.is_layout(),
        r.spec_children() == children.routes_of(),
        r.spec_handle() is None,
        r.spec_id() == 0,
        r.spec_redirect() is None,
{
    Route {
        pattern: "<layout>",
        kind: RouteKind::Layout,
        children: children.into_routes(),
        handle: None,
        id: RouteId(0),
        redirect: None,
    }
}

/// Groups child routes below a path.
pub fn scope<H, C: IntoRoutes<H>>(pattern: &'static str, children: C) -> (r: Route<H>)
    requires
        pattern_is_valid(pattern@),
    ensures
        r.spec_pattern() == pattern@,
        r.path_pattern() == Some(
            PatternView {
                source: pattern@,
                absolute: pattern@[0] == '/',
                segments: super::pattern::pattern_segments_of(pattern@),
            },
        ),
        r.spec_children() == children.routes_of(),
        r.spec_handle() is None,
        r.spec_id() == 0,
        r.spec_redirect() is None,
{
    route(pattern).children(children)
}

/// Defines a sibling fallback, attempted only after every normal sibling.
pub fn not_found<H>() -> (r: Route<H>)
    ensures
        r.spec_pattern() == "<not-found>"@,
        r.is_fallback(),
        r.spec_children().len() == 0,
        r.spec_handle() is None,
        r.spec_id() == 0,
        r.spec_redirect() is None,
{
    Route {
        pattern: "<not-found>",
        kind: RouteKind::Fallback,
        children: Vec::new(),
        handle: None,
        id: RouteId(0),
        redirect: None,
    }
}

/// Defines an absolute replace redirect: once rendered, a route matching `pattern`
/// replaces the current location with `destination`.
pub fn redirect<H>(pattern: &'static str, destination: &'static str) -> (r: Route<H>)
    requires
        pattern_is_valid(pattern@),
        starts_with_char(destination@, '/'),
    ensures
        r.spec_pattern() == pattern@,
        r.path_pattern() == Some(
            PatternView {
                source: pattern@,
                absolute: pattern@[0] == '/',
                segments: super::pattern::pattern_segments_of(pattern@),
            },
        ),
        r.spec_children().len() == 0,
        r.spec_handle() is None,
        r.spec_id() == 0,
        r.spec_redirect() == Some(location_of(destination@)),
{
    let r = route(pattern);
    Route { redirect: Some(Location::new(destination)), ..r }
}

impl<H> Route<H> {
    /// Where this route redirects to, if it is a redirect.
    pub fn redirect_destination(&self) -> (r: Option<&Location>)
        ensures
            match r {
                Some(l) => self.spec_redirect() == Some(l@),
                None => self.spec_redirect() is None,
            },
    {
        match &self.redirect {
            Some(l) => Some(l),
            None => None,
        }
    }
}

/// The replacement a rendered redirect asks for: its destination, unless the router is
/// already there.
pub fn redirect_replacement(current: &Location, destination: &Location) -> (r: Option<Location>)
    ensures
        match r {
            Some(l) => l@ == destination@ && current@ != destination@,
            None => current@ == destination@,
        },
{
    if current.same_as(destination) {
        None
    } else {
        Some(destination.duplicate())
    }
}

/// A table of routes with identifiers assigned.
pub struct DeclarativeRouter<H> {
    routes: Vec<Route<H>>,
}

impl<H> DeclarativeRouter<H> {
    pub closed spec fn spec_routes(self) -> Seq<Route<H>> {
        self.routes@
    }

    #[verifier::type_invariant]
    spec fn scores_fit(self) -> bool {
        max_score(self.routes@) <= u32::MAX
    }
}

/// The first location that a resolved node carries.
fn first_node_location<H: Copy>(nodes: &Vec<ResolvedNode<H>>) -> (r: Option<Location>)
    ensures
        match r {
            Some(l) => first_location(nodes@.map_values(|n: ResolvedNode<H>| n.view_of())) == Some(
                l@,
            ),
            None => first_location(nodes@.map_values(|n: ResolvedNode<H>| n.view_of())) is None,
        },
{
    let ghost all = nodes@.map_values(|n: ResolvedNode<H>| n.view_of());
    let mut i: usize = 0;
    assert(all.skip(0) =~= all);
    while i < nodes.len()
        invariant
            i <= nodes@.len(),
            all == nodes@.map_values(|n: ResolvedNode<H>| n.view_of()),
            first_location(all) == first_location(all.skip(i as int)),
        decreases nodes@.len() - i,
    {
        assert(all.skip(i as int)[0] == nodes@[i as int].view_of());
        match &nodes[i].location {
            Some(l) => {
                return Some(l.duplicate());
            },
            None => {},
        }
        assert(all.skip(i as int).drop_first() =~= all.skip(i + 1));
        i = i + 1;
    }
    None
}

impl<H: Copy> DeclarativeRouter<H> {
    /// The matched branch for `target`, if some route completes one.
    pub fn matches(&self, target: &Location) -> (r: Option<RouteMatches<H>>)
        ensures
            match r {
                Some(m) => matches_of(self.spec_routes(), target@) == Some(m@),
                None => matches_of(self.spec_routes(), target@) is None,
            },
    {
        proof {
            use_type_invariant(self);
        }
        let root = "/".to_owned();
        proof {
            reveal_strlit("/");
            assert(root@ =~= seq!['/']);
        }
        let params = PathParams::new();
        match resolve_routes(&self.routes, target, 0, &root, &params) {
            Some(candidate) => {
                let location = first_node_location(&candidate.nodes);
                let ghost nodes = candidate.nodes@;
                let mut entries: Vec<RouteMatch<H>> = Vec::new();
                let mut i: usize = 0;
                while i < candidate.nodes.len()
                    invariant
                        i <= nodes.len(),
                        nodes == candidate.nodes@,
                        entries@.map_values(|m: RouteMatch<H>| m@) == nodes.take(i as int).map_values(
                            |n: ResolvedNode<H>| n.view_of().matched,
                        ),
                    decreases nodes.len() - i,
                {
                    let ghost before = entries@.map_values(|m: RouteMatch<H>| m@);
                    let m = candidate.nodes[i].matched.duplicate();
                    let ghost mv = m@;
                    entries.push(m);
                    assert(entries@.map_values(|m: RouteMatch<H>| m@) =~= before.push(mv));
                    assert(nodes.take(i + 1).map_values(|n: ResolvedNode<H>| n.view_of().matched)
                        =~= nodes.take(i as int).map_values(
                        |n: ResolvedNode<H>| n.view_of().matched,
                    ).push(nodes[i as int].view_of().matched));
                    i = i + 1;
                }
                let result = RouteMatches::from_parts(location, entries);
                assert(nodes.take(i as int) =~= nodes);
                assert(nodes.map_values(|n: ResolvedNode<H>| n.view_of().matched) =~= candidate.view_of().nodes.map_values(
                    |n: NodeView<H>| n.matched,
                ));
                Some(result)
            },
            None => None,
        }
    }
}

/// `<index>`, the pattern of index routes.
pub open spec fn index_marker() -> Seq<char> {
    seq!['<', 'i', 'n', 'd', 'e', 'x', '>']
}

/// `<not-found>`, the pattern of fallback routes.
pub open spec fn not_found_marker() -> Seq<char> {
    seq!['<', 'n', 'o', 't', '-', 'f', 'o', 'u', 'n', 'd', '>']
}

/// The rules one route must satisfy at its level.
pub open spec fn route_ok<H>(r: Route<H>, inside_path: bool) -> bool {
    if r.is_layout() {
        r.spec_children().len() > 0
    } else if r.is_fallback() {
        r.spec_children().len() == 0
    } else if r.spec_pattern() == index_marker() {
        inside_path && r.spec_children().len() == 0
    } else {
        starts_with_char(r.spec_pattern(), '/') != inside_path
    }
}

/// Whether the children of `r` sit below a path.
pub open spec fn child_inside<H>(r: Route<H>, inside_path: bool) -> bool {
    inside_path || (!r.is_layout() && !r.is_fallback() && r.spec_pattern() != index_marker())
}

/// The children of `routes[..n]` are valid levels.
pub open spec fn children_ok_upto<H>(routes: Seq<Route<H>>, n: int, inside_path: bool) -> bool
    decreases routes, 0nat, n,
{
    if n <= 0 || n > routes.len() {
        true
    } else {
        children_ok_upto(routes, n - 1, inside_path) && level_ok(
            routes[n - 1].spec_children(),
            child_inside(routes[n - 1], inside_path),
        )
    }
}

/// Each route of a level follows the rules of its kind.
pub open spec fn routes_follow_rules<H>(routes: Seq<Route<H>>, inside_path: bool) -> bool {
    forall|i: int| 0 <= i < routes.len() ==> route_ok(#[trigger] routes[i], inside_path)
}

/// A fallback, if a level has one, is its last route.
pub open spec fn fallback_is_last<H>(routes: Seq<Route<H>>) -> bool {
    forall|i: int| 0 <= i < routes.len() && (#[trigger] routes[i]).is_fallback() ==> i == routes.len() - 1
}

/// Siblings other than layouts have distinct patterns.
pub open spec fn sibling_patterns_distinct<H>(routes: Seq<Route<H>>) -> bool {
    forall|i: int, j: int|
        0 <= i < j < routes.len() && !(#[trigger] routes[i]).is_layout() && !(#[trigger] routes[j]).is_layout()
            ==> routes[i].spec_pattern() != routes[j].spec_pattern()
}

/// One level of a route table: each route follows the rules of its kind, a fallback
/// comes last, non-layout siblings have distinct patterns, and children are valid levels.
pub open spec fn level_ok<H>(routes: Seq<Route<H>>, inside_path: bool) -> bool
    decreases routes, 1nat, 0int,
{
    &&& routes_follow_rules(routes, inside_path)
    &&& fallback_is_last(routes)
    &&& sibling_patterns_distinct(routes)
    &&& children_ok_upto(routes, routes.len() as int, inside_path)
}

/// `s` without trailing `c`s.
pub open spec fn trim_end(s: Seq<char>, c: char) -> Seq<char>
    decreases s.len(),
{
    if s.len() > 0 && s.last() == c {
        trim_end(s.drop_last(), c)
    } else {
        s
    }
}

/// A child pattern joined onto the full pattern of its parent.
pub open spec fn join_route_pattern_of(parent: Seq<char>, pattern: Seq<char>) -> Seq<char> {
    if starts_with_char(pattern, '/') {
        pattern
    } else if parent == seq!['/'] {
        seq!['/'] + pattern
    } else {
        trim_end(parent, '/') + seq!['/'] + pattern
    }
}

/// A segment as it counts for ambiguity: any parameter is `:`, any wildcard `*`.
pub open spec fn shape_segment(seg: Seq<char>) -> Seq<char> {
    if starts_with_char(seg, ':') {
        seq![':']
    } else if starts_with_char(seg, '*') {
        seq!['*']
    } else {
        seg
    }
}

/// The shape of a complete pattern.
pub open spec fn shape_of(pattern: Seq<char>) -> Seq<char> {
    absolute_path(path_segments_of(pattern).map_values(|s: Seq<char>| shape_segment(s)))
}

pub open spec fn has_index_child<H>(children: Seq<Route<H>>) -> bool {
    exists|i: int| 0 <= i < children.len() && (#[trigger] children[i]).spec_pattern() == index_marker()
}

/// The names captured by the segments of a full pattern.
pub open spec fn captured_names(pieces: Seq<Seq<char>>) -> Seq<Seq<char>>
    decreases pieces.len(),
{
    if pieces.len() == 0 {
        Seq::empty()
    } else {
        let rest = captured_names(pieces.drop_last());
        let p = pieces.last();
        if starts_with_char(p, ':') || starts_with_char(p, '*') {
            rest.push(p.drop_first())
        } else {
            rest
        }
    }
}

pub open spec fn distinct(s: Seq<Seq<char>>) -> bool {
    forall|i: int, j: int| 0 <= i < j < s.len() ==> s[i] != s[j]
}

/// The shapes of complete patterns that `routes[..n]` define, in declaration order.
pub open spec fn shapes_upto<H>(routes: Seq<Route<H>>, n: int, parent: Seq<char>) -> Seq<Seq<char>>
    decreases routes, 1nat, n,
{
    if n <= 0 || n > routes.len() {
        Seq::empty()
    } else {
        shapes_upto(routes, n - 1, parent) + route_shapes(routes[n - 1], parent)
    }
}

/// The shapes of complete patterns that one route defines.
pub open spec fn route_shapes<H>(r: Route<H>, parent: Seq<char>) -> Seq<Seq<char>>
    decreases r, 0nat, 0int,
{
    if r.is_layout() {
        shapes_upto(r.spec_children(), r.spec_children().len() as int, parent)
    } else if r.is_fallback() {
        seq![shape_of(not_found_marker() + parent)]
    } else if r.spec_pattern() == index_marker() {
        seq![shape_of(parent)]
    } else {
        let full = join_route_pattern_of(parent, r.spec_pattern());
        (if has_index_child(r.spec_children()) {
            Seq::empty()
        } else {
            seq![shape_of(full)]
        }) + shapes_upto(r.spec_children(), r.spec_children().len() as int, full)
    }
}

/// Every full path pattern defined by `routes[..n]` captures distinct names.
pub open spec fn names_ok_upto<H>(routes: Seq<Route<H>>, n: int, parent: Seq<char>) -> bool
    decreases routes, 1nat, n,
{
    if n <= 0 || n > routes.len() {
        true
    } else {
        names_ok_upto(routes, n - 1, parent) && route_names_ok(routes[n - 1], parent)
    }
}

pub open spec fn route_names_ok<H>(r: Route<H>, parent: Seq<char>) -> bool
    decreases r, 0nat, 0int,
{
    if r.is_layout() {
        names_ok_upto(r.spec_children(), r.spec_children().len() as int, parent)
    } else if r.is_fallback() || r.spec_pattern() == index_marker() {
        true
    } else {
        let full = join_route_pattern_of(parent, r.spec_pattern());
        distinct(captured_names(split_chars(full, '/'))) && names_ok_upto(
            r.spec_children(),
            r.spec_children().len() as int,
            full,
        )
    }
}

/// The number of routes in a table.
pub open spec fn count_upto<H>(routes: Seq<Route<H>>, n: int) -> nat
    decreases routes, 0nat, n,
{
    if n <= 0 || n > routes.len() {
        0
    } else {
        count_upto(routes, n - 1) + 1 + route_count(routes[n - 1].spec_children())
    }
}

pub open spec fn route_count<H>(routes: Seq<Route<H>>) -> nat
    decreases routes, 1nat,
{
    count_upto(routes, routes.len() as int)
}

/// A table `create_router` accepts: valid levels, unambiguous complete patterns, no
/// parameter shadowing an ancestor's, scores that fit in `u32`, and identifiers that fit
/// in `u64`.
pub open spec fn route_table_ok<H>(routes: Seq<Route<H>>) -> bool {
    &&& routes.len() > 0
    &&& level_ok(routes, false)
    &&& distinct(shapes_upto(routes, routes.len() as int, seq!['/']))
    &&& names_ok_upto(routes, routes.len() as int, seq!['/'])
    &&& max_score(routes) <= u32::MAX
    &&& route_count(routes) < u64::MAX
}

/// Whether a pattern is the `<index>` marker.
fn is_index_pattern(p: &'static str) -> (r: bool)
    ensures
        r == (p@ == index_marker()),
{
    let marker = "<index>";
    proof {
        reveal_strlit("<index>");
    }
    assert(marker@ =~= index_marker());
    str_equal(p, marker)
}

fn starts_with_slash(p: &str) -> (r: bool)
    ensures
        r == starts_with_char(p@, '/'),
{
    let cs = chars_of(p);
    cs.len() > 0 && cs[0] == '/'
}

fn is_layout_route<H>(r: &Route<H>) -> (b: bool)
    ensures
        b == r.is_layout(),
{
    match &r.kind {
        RouteKind::Layout => true,
        _ => false,
    }
}

fn is_fallback_route<H>(r: &Route<H>) -> (b: bool)
    ensures
        b == r.is_fallback(),
{
    match &r.kind {
        RouteKind::Fallback => true,
        _ => false,
    }
}

fn route_valid<H>(r: &Route<H>, inside_path: bool) -> (b: bool)
    ensures
        b == route_ok(*r, inside_path),
{
    match &r.kind {
        RouteKind::Layout => r.children.len() > 0,
        RouteKind::Fallback => r.children.len() == 0,
        _ => if is_index_pattern(r.pattern) {
            inside_path && r.children.len() == 0
        } else {
            starts_with_slash(r.pattern) != inside_path
        },
    }
}

fn child_inside_path<H>(r: &Route<H>, inside_path: bool) -> (b: bool)
    ensures
        b == child_inside(*r, inside_path),
{
    let pathless = match &r.kind {
        RouteKind::Layout | RouteKind::Fallback => true,
        _ => false,
    };
    inside_path || (!pathless && !is_index_pattern(r.pattern))
}

proof fn lemma_children_ok_upto<H>(routes: Seq<Route<H>>, n: int, i: int, inside_path: bool)
    requires
        0 <= i < n <= routes.len(),
        children_ok_upto(routes, n, inside_path),
    ensures
        level_ok(routes[i].spec_children(), child_inside(routes[i], inside_path)),
    decreases n,
{
    if i < n - 1 {
        lemma_children_ok_upto(routes, n - 1, i, inside_path);
    }
}

/// Whether the children of `r` form a valid level.
fn children_valid<H>(r: &Route<H>, inside_path: bool) -> (b: bool)
    ensures
        b == level_ok(r.spec_children(), child_inside(*r, inside_path)),
    decreases *r, 0nat,
{
    let inside = child_inside_path(r, inside_path);
    level_valid(&r.children, inside)
}

/// Whether one level of a route table follows the rules of `level_ok`.
fn level_valid<H>(routes: &Vec<Route<H>>, inside_path: bool) -> (b: bool)
    ensures
        b == level_ok(routes@, inside_path),
    decreases routes@, 1nat,
{
    let n = routes.len();
    let mut i: usize = 0;
    while i < n
        invariant
            i <= n,
            n == routes@.len(),
            forall|j: int| 0 <= j < i ==> route_ok(#[trigger] routes@[j], inside_path),
        decreases n - i,
    {
        if !route_valid(&routes[i], inside_path) {
            return false;
        }
        i = i + 1;
    }
    let mut i: usize = 0;
    while i < n
        invariant
            i <= n,
            n == routes@.len(),
            routes_follow_rules(routes@, inside_path),
            forall|j: int| 0 <= j < i && (#[trigger] routes@[j]).is_fallback() ==> j == n - 1,
        decreases n - i,
    {
        if is_fallback_route(&routes[i]) && i + 1 != n {
            assert(routes@[i as int].is_fallback());
            return false;
        }
        i = i + 1;
    }
    let mut i: usize = 0;
    while i < n
        invariant
            i <= n,
            n == routes@.len(),
            routes_follow_rules(routes@, inside_path),
            fallback_is_last(routes@),
            forall|a: int, b: int|
                0 <= a < i && a < b < n && !(#[trigger] routes@[a]).is_layout()
                    && !(#[trigger] routes@[b]).is_layout() ==> routes@[a].spec_pattern()
                    != routes@[b].spec_pattern(),
        decreases n - i,
    {
        if !is_layout_route(&routes[i]) {
            let mut j: usize = i + 1;
            while j < n
                invariant
                    i < n,
                    i + 1 <= j <= n,
                    n == routes@.len(),
                    !routes@[i as int].is_layout(),
                    forall|a: int, b: int|
                        0 <= a < i && a < b < n && !(#[trigger] routes@[a]).is_layout()
                            && !(#[trigger] routes@[b]).is_layout() ==> routes@[a].spec_pattern()
                            != routes@[b].spec_pattern(),
                    forall|b: int|
                        i < b < j && !(#[trigger] routes@[b]).is_layout() ==> routes@[i as int].spec_pattern()
                            != routes@[b].spec_pattern(),
                decreases n - j,
            {
                if !is_layout_route(&routes[j]) && str_equal(routes[i].pattern, routes[j].pattern) {
                    assert(!routes@[j as int].is_layout());
                    return false;
                }
                j = j + 1;
            }
        }
        i = i + 1;
    }
    let mut i: usize = 0;
    while i < n
        invariant
            i <= n,
            n == routes@.len(),
            routes_follow_rules(routes@, inside_path),
            fallback_is_last(routes@),
            sibling_patterns_distinct(routes@),
            children_ok_upto(routes@, i as int, inside_path),
        decreases n - i,
    {
        assert(decreases_to!(routes@ => routes@[i as int]));
        if !children_valid(&routes[i], inside_path) {
            proof {
                if children_ok_upto(routes@, n as int, inside_path) {
                    lemma_children_ok_upto(routes@, n as int, i as int, inside_path);
                }
            }
            return false;
        }
        i = i + 1;
    }
    true
}

/// A copy of `s` without its trailing slashes.
fn trim_end_slashes(s: &Vec<char>) -> (r: Vec<char>)
    ensures
        r@ == trim_end(s@, '/'),
{
    let mut n = s.len();
    assert(s@.take(n as int) =~= s@);
    while n > 0 && s[n - 1] == '/'
        invariant
            n <= s@.len(),
            trim_end(s@, '/') == trim_end(s@.take(n as int), '/'),
        decreases n,
    {
        assert(s@.take(n as int).drop_last() =~= s@.take(n - 1));
        n = n - 1;
    }
    slice_chars(s, 0, n)
}

/// A child pattern joined onto the full pattern of its parent.
fn join_route_pattern(parent: &Vec<char>, pattern: &Vec<char>) -> (r: Vec<char>)
    ensures
        r@ == join_route_pattern_of(parent@, pattern@),
{
    if pattern.len() > 0 && pattern[0] == '/' {
        return pattern.clone();
    }
    if parent.len() == 1 && parent[0] == '/' {
        let mut r: Vec<char> = Vec::new();
        r.push('/');
        append_chars(&mut r, pattern);
        assert(parent@ =~= seq!['/']);
        return r;
    }
    let mut r = trim_end_slashes(parent);
    r.push('/');
    append_chars(&mut r, pattern);
    proof {
        if parent@ == seq!['/'] {
            assert(parent@.len() == 1 && parent@[0] == '/');
        }
    }
    r
}

fn shape_segment_chars(seg: &Vec<char>) -> (r: Vec<char>)
    ensures
        r@ == shape_segment(seg@),
{
    let mut r: Vec<char> = Vec::new();
    if seg.len() > 0 && seg[0] == ':' {
        r.push(':');
        assert(r@ =~= seq![':']);
        r
    } else if seg.len() > 0 && seg[0] == '*' {
        r.push('*');
        assert(r@ =~= seq!['*']);
        r
    } else {
        seg.clone()
    }
}

/// The shape of a complete pattern.
fn shape_chars(pattern: &Vec<char>) -> (r: Vec<char>)
    ensures
        r@ == shape_of(pattern@),
{
    let segs = path_segments(pattern);
    let ghost all = views(segs@);
    let mut shaped: Vec<Vec<char>> = Vec::new();
    let mut i: usize = 0;
    while i < segs.len()
        invariant
            i <= segs@.len(),
            all == views(segs@),
            views(shaped@) == all.take(i as int).map_values(|s: Seq<char>| shape_segment(s)),
        decreases segs@.len() - i,
    {
        let ghost before = views(shaped@);
        shaped.push(shape_segment_chars(&segs[i]));
        assert(views(shaped@) =~= before.push(shape_segment(all[i as int])));
        assert(all.take(i + 1).map_values(|s: Seq<char>| shape_segment(s)) =~= all.take(
            i as int,
        ).map_values(|s: Seq<char>| shape_segment(s)).push(shape_segment(all[i as int])));
        i = i + 1;
    }
    assert(all.take(i as int) =~= all);
    let joined = join_pieces(&shaped, '/');
    let mut r: Vec<char> = Vec::new();
    r.push('/');
    append_chars(&mut r, &joined);
    assert(r@ =~= seq!['/'] + joined@);
    r
}

fn has_index_route<H>(children: &Vec<Route<H>>) -> (b: bool)
    ensures
        b == has_index_child(children@),
{
    let mut i: usize = 0;
    while i < children.len()
        invariant
            i <= children@.len(),
            forall|j: int| 0 <= j < i ==> (#[trigger] children@[j]).spec_pattern() != index_marker(),
        decreases children@.len() - i,
    {
        if is_index_pattern(children[i].pattern) {
            return true;
        }
        i = i + 1;
    }
    false
}

/// Appends the shapes of the complete patterns `r` defines below `parent`.
fn collect_route_shapes<H>(r: &Route<H>, parent: &Vec<char>, out: &mut Vec<Vec<char>>)
    ensures
        views(final(out)@) == views(old(out)@) + route_shapes(*r, parent@),
    decreases *r, 0nat,
{
    match &r.kind {
        RouteKind::Layout => {
            collect_level_shapes(&r.children, parent, out);
        },
        RouteKind::Fallback => {
            let mut full = chars_of("<not-found>");
            proof {
                reveal_strlit("<not-found>");
            }
            assert(full@ =~= not_found_marker());
            append_chars(&mut full, parent);
            let ghost before = views(out@);
            out.push(shape_chars(&full));
            assert(views(out@) =~= before + route_shapes(*r, parent@));
        },
        _ => {
            if is_index_pattern(r.pattern) {
                let ghost before = views(out@);
                out.push(shape_chars(parent));
                assert(views(out@) =~= before + route_shapes(*r, parent@));
            } else {
                let pattern = chars_of(r.pattern);
                let full = join_route_pattern(parent, &pattern);
                let ghost before = views(out@);
                if !has_index_route(&r.children) {
                    out.push(shape_chars(&full));
                    assert(views(out@) =~= before + seq![shape_of(full@)]);
                } else {
                    assert(views(out@) =~= before + Seq::<Seq<char>>::empty());
                }
                let ghost middle = views(out@);
                collect_level_shapes(&r.children, &full, out);
                assert(views(out@) =~= before + route_shapes(*r, parent@));
            }
        },
    }
}

/// Appends the shapes of the complete patterns `routes` define below `parent`.
fn collect_level_shapes<H>(routes: &Vec<Route<H>>, parent: &Vec<char>, out: &mut Vec<Vec<char>>)
    ensures
        views(final(out)@) == views(old(out)@) + shapes_upto(
            routes@,
            routes@.len() as int,
            parent@,
        ),
    decreases routes@, 1nat,
{
    let ghost start = views(out@);
    let mut i: usize = 0;
    assert(start + shapes_upto(routes@, 0, parent@) =~= start);
    while i < routes.len()
        invariant
            i <= routes@.len(),
            views(out@) == start + shapes_upto(routes@, i as int, parent@),
        decreases routes@.len() - i,
    {
        assert(decreases_to!(routes@ => routes@[i as int]));
        collect_route_shapes(&routes[i], parent, out);
        assert(start + shapes_upto(routes@, i + 1, parent@) =~= start + shapes_upto(
            routes@,
            i as int,
            parent@,
        ) + route_shapes(routes@[i as int], parent@));
        i = i + 1;
    }
}

/// Whether no two pieces are equal.
fn all_distinct(v: &Vec<Vec<char>>) -> (b: bool)
    ensures
        b == distinct(views(v@)),
{
    let n = v.len();
    let ghost all = views(v@);
    let mut i: usize = 0;
    while i < n
        invariant
            i <= n,
            n == v@.len(),
            all == views(v@),
            forall|a: int, b: int| 0 <= a < i && a < b < n ==> all[a] != all[b],
        decreases n - i,
    {
        let mut j: usize = i + 1;
        while j < n
            invariant
                i < n,
                i + 1 <= j <= n,
                n == v@.len(),
                all == views(v@),
                forall|a: int, b: int| 0 <= a < i && a < b < n ==> all[a] != all[b],
                forall|b: int| i < b < j ==> all[i as int] != all[b],
            decreases n - j,
        {
            if chars_equal(&v[i], &v[j]) {
                assert(all[i as int] == all[j as int]);
                return false;
            }
            j = j + 1;
        }
        i = i + 1;
    }
    true
}

/// The names captured by the segments of a full pattern.
fn captured(pieces: &Vec<Vec<char>>) -> (r: Vec<Vec<char>>)
    ensures
        views(r@) == captured_names(views(pieces@)),
{
    let ghost all = views(pieces@);
    let mut r: Vec<Vec<char>> = Vec::new();
    let mut i: usize = 0;
    while i < pieces.len()
        invariant
            i <= pieces@.len(),
            all == views(pieces@),
            views(r@) == captured_names(all.take(i as int)),
        decreases pieces@.len() - i,
    {
        assert(all.take(i + 1).drop_last() =~= all.take(i as int));
        assert(all.take(i + 1).last() == pieces@[i as int]@);
        let p = &pieces[i];
        if p.len() > 0 && (p[0] == ':' || p[0] == '*') {
            let ghost before = views(r@);
            r.push(slice_chars(p, 1, p.len()));
            assert(views(r@) =~= before.push(p@.drop_first()));
        }
        i = i + 1;
    }
    assert(all.take(i as int) =~= all);
    r
}

proof fn lemma_names_ok_upto<H>(routes: Seq<Route<H>>, n: int, i: int, parent: Seq<char>)
    requires
        0 <= i < n <= routes.len(),
        names_ok_upto(routes, n, parent),
    ensures
        route_names_ok(routes[i], parent),
    decreases n,
{
    if i < n - 1 {
        lemma_names_ok_upto(routes, n - 1, i, parent);
    }
}

/// Whether every full path pattern below `r` captures distinct names.
fn route_names_valid<H>(r: &Route<H>, parent: &Vec<char>) -> (b: bool)
    ensures
        b == route_names_ok(*r, parent@),
    decreases *r, 0nat,
{
    match &r.kind {
        RouteKind::Layout => level_names_valid(&r.children, parent),
        RouteKind::Fallback => true,
        _ => {
            if is_index_pattern(r.pattern) {
                return true;
            }
            let pattern = chars_of(r.pattern);
            let full = join_route_pattern(parent, &pattern);
            let pieces = split_pieces(&full, '/');
            let names = captured(&pieces);
            if !all_distinct(&names) {
                return false;
            }
            level_names_valid(&r.children, &full)
        },
    }
}

fn level_names_valid<H>(routes: &Vec<Route<H>>, parent: &Vec<char>) -> (b: bool)
    ensures
        b == names_ok_upto(routes@, routes@.len() as int, parent@),
    decreases routes@, 1nat,
{
    let n = routes.len();
    let mut i: usize = 0;
    while i < n
        invariant
            i <= n,
            n == routes@.len(),
            names_ok_upto(routes@, i as int, parent@),
        decreases n - i,
    {
        assert(decreases_to!(routes@ => routes@[i as int]));
        if !route_names_valid(&routes[i], parent) {
            proof {
                if names_ok_upto(routes@, n as int, parent@) {
                    lemma_names_ok_upto(routes@, n as int, i as int, parent@);
                }
            }
            return false;
        }
        i = i + 1;
    }
    true
}

fn route_step_max<H>(r: &Route<H>) -> (s: u64)
    ensures
        s == step_max(*r),
{
    match &r.kind {
        RouteKind::Path(p) => p.max_score() as u64,
        RouteKind::Index => 5,
        _ => 0,
    }
}

/// The largest score of a branch through `r`, saturated at `u64::MAX`.
fn route_score_bound<H>(r: &Route<H>) -> (s: u64)
    ensures
        s == min_int(step_max(*r) + max_score(r.spec_children()), u64::MAX as int),
    decreases *r, 0nat,
{
    let children = level_score_bound(&r.children);
    let step = route_step_max(r);
    proof {
        lemma_max_score_nonneg(r.spec_children(), r.spec_children().len() as int);
    }
    step.saturating_add(children)
}

/// The largest score of a branch through `routes`, saturated at `u64::MAX`.
fn level_score_bound<H>(routes: &Vec<Route<H>>) -> (s: u64)
    ensures
        s == min_int(max_score(routes@), u64::MAX as int),
    decreases routes@, 1nat,
{
    let mut best: u64 = 0;
    let mut i: usize = 0;
    while i < routes.len()
        invariant
            i <= routes@.len(),
            best == min_int(max_score_upto(routes@, i as int), u64::MAX as int),
        decreases routes@.len() - i,
    {
        assert(decreases_to!(routes@ => routes@[i as int]));
        let here = route_score_bound(&routes[i]);
        proof {
            lemma_max_score_nonneg(routes@, i as int);
        }
        if here > best {
            best = here;
        }
        i = i + 1;
    }
    best
}

/// The number of routes in `routes` and below, saturated at `u64::MAX`.
fn level_count_bound<H>(routes: &Vec<Route<H>>) -> (s: u64)
    ensures
        s == min_int(route_count(routes@) as int, u64::MAX as int),
    decreases routes@, 1nat,
{
    let mut total: u64 = 0;
    let mut i: usize = 0;
    while i < routes.len()
        invariant
            i <= routes@.len(),
            total == min_int(count_upto(routes@, i as int) as int, u64::MAX as int),
        decreases routes@.len() - i,
    {
        assert(decreases_to!(routes@ => routes@[i as int]));
        let below = route_children_count(&routes[i]);
        total = total.saturating_add(1).saturating_add(below);
        i = i + 1;
    }
    total
}

fn route_children_count<H>(r: &Route<H>) -> (s: u64)
    ensures
        s == min_int(route_count(r.spec_children()) as int, u64::MAX as int),
    decreases *r, 0nat,
{
    level_count_bound(&r.children)
}

/// Whether `create_router` accepts a table.
pub fn validate_routes<H>(routes: &Vec<Route<H>>) -> (b: bool)
    ensures
        b == route_table_ok(routes@),
{
    if routes.len() == 0 {
        return false;
    }
    if !level_valid(routes, false) {
        return false;
    }
    let mut root: Vec<char> = Vec::new();
    root.push('/');
    assert(root@ =~= seq!['/']);
    let mut shapes: Vec<Vec<char>> = Vec::new();
    collect_level_shapes(routes, &root, &mut shapes);
    assert(views(shapes@) =~= Seq::<Seq<char>>::empty() + shapes_upto(
        routes@,
        routes@.len() as int,
        seq!['/'],
    ));
    if !all_distinct(&shapes) {
        return false;
    }
    if !level_names_valid(routes, &root) {
        return false;
    }
    if level_score_bound(routes) > 0xffff_ffff {
        return false;
    }
    if level_count_bound(routes) == u64::MAX {
        return false;
    }
    true
}

/// `b` is `a` with identifiers assigned in declaration order from `start`, each route
/// before its children.
pub open spec fn renumbered<H>(a: Seq<Route<H>>, b: Seq<Route<H>>, start: int) -> bool
    decreases a, 1nat, 0int,
{
    a.len() == b.len() && renumbered_upto(a, b, a.len() as int, start)
}

pub open spec fn renumbered_upto<H>(a: Seq<Route<H>>, b: Seq<Route<H>>, n: int, start: int) -> bool
    decreases a, 0nat, n,
{
    if n <= 0 || n > a.len() {
        true
    } else {
        renumbered_upto(a, b, n - 1, start) && route_renumbered(
            a[n - 1],
            b[n - 1],
            start + count_upto(a, n - 1),
        )
    }
}

/// `b` is `a` with identifier `start`, and its children numbered from `start + 1`.
pub open spec fn route_renumbered<H>(a: Route<H>, b: Route<H>, start: int) -> bool
    decreases a, 2nat, 0int,
{
    &&& b.spec_pattern() == a.spec_pattern()
    &&& b.spec_kind() == a.spec_kind()
    &&& b.spec_handle() == a.spec_handle()
    &&& b.spec_redirect() == a.spec_redirect()
    &&& b.spec_id() == start
    &&& renumbered(a.spec_children(), b.spec_children(), start + 1)
}

proof fn lemma_count_upto_monotone<H>(routes: Seq<Route<H>>, m: int, n: int)
    requires
        0 <= m <= n <= routes.len(),
    ensures
        count_upto(routes, m) <= count_upto(routes, n),
    decreases n - m,
{
    if m < n {
        lemma_count_upto_monotone(routes, m, n - 1);
    }
}

proof fn lemma_renumbered_upto_frame<H>(a: Seq<Route<H>>, b1: Seq<Route<H>>, b2: Seq<Route<H>>, n: int, start: int)
    requires
        0 <= n <= b1.len(),
        n <= b2.len(),
        forall|k: int| 0 <= k < n ==> b1[k] == b2[k],
    ensures
        renumbered_upto(a, b1, n, start) == renumbered_upto(a, b2, n, start),
    decreases n,
{
    if n > 0 {
        lemma_renumbered_upto_frame(a, b1, b2, n - 1, start);
    }
}

/// Gives `r` the identifier `start` and its descendants the following ones.
fn renumber_route<H>(r: Route<H>, start: u64) -> (res: (Route<H>, u64))
    requires
        start + 1 + route_count(r.spec_children()) <= u64::MAX,
    ensures
        route_renumbered(r, res.0, start as int),
        res.1 == start + 1 + route_count(r.spec_children()),
    decreases r, 0nat,
{
    let Route { pattern, kind, children, handle, id: _, redirect } = r;
    let (children, next) = renumber_routes(children, start + 1);
    (Route { pattern, kind, children, handle, id: RouteId(start), redirect }, next)
}

/// Numbers `routes` in declaration order from `start`, each route before its children;
/// also returns the next free identifier.
fn renumber_routes<H>(routes: Vec<Route<H>>, start: u64) -> (res: (Vec<Route<H>>, u64))
    requires
        start + route_count(routes@) <= u64::MAX,
    ensures
        renumbered(routes@, res.0@, start as int),
        res.1 == start + route_count(routes@),
    decreases routes@, 1nat,
{
    let ghost orig = routes@;
    let n = routes.len();
    let mut input = routes;
    let mut out: Vec<Route<H>> = Vec::new();
    let mut next = start;
    let mut i: usize = 0;
    while i < n
        invariant
            i <= n,
            n == orig.len(),
            orig == routes@,
            input@ == orig.skip(i as int),
            out@.len() == i,
            renumbered_upto(orig, out@, i as int, start as int),
            next == start + count_upto(orig, i as int),
            start + route_count(orig) <= u64::MAX,
        decreases n - i,
    {
        proof {
            lemma_count_upto_monotone(orig, i + 1, n as int);
        }
        let r = input.remove(0);
        assert(r == orig[i as int]);
        assert(decreases_to!(orig => orig[i as int]));
        let (numbered, after) = renumber_route(r, next);
        let ghost before = out@;
        out.push(numbered);
        proof {
            lemma_renumbered_upto_frame(orig, before, out@, i as int, start as int);
        }
        assert(input@ =~= orig.skip(i + 1));
        next = after;
        i = i + 1;
    }
    (out, next)
}

proof fn lemma_renumbered_max_score_upto<H>(a: Seq<Route<H>>, b: Seq<Route<H>>, n: int, start: int)
    requires
        0 <= n <= a.len(),
        a.len() == b.len(),
        renumbered_upto(a, b, n, start),
    ensures
        max_score_upto(a, n) == max_score_upto(b, n),
    decreases a, 0nat, n,
{
    if n > 0 {
        lemma_renumbered_max_score_upto(a, b, n - 1, start);
        lemma_route_renumbered_max_score(a[n - 1], b[n - 1], start + count_upto(a, n - 1));
    }
}

proof fn lemma_route_renumbered_max_score<H>(a: Route<H>, b: Route<H>, start: int)
    requires
        route_renumbered(a, b, start),
    ensures
        step_max(a) == step_max(b),
        max_score(a.spec_children()) == max_score(b.spec_children()),
    decreases a, 2nat, 0int,
{
    lemma_renumbered_max_score_upto(
        a.spec_children(),
        b.spec_children(),
        a.spec_children().len() as int,
        start + 1,
    );
}

/// Builds a router from a table that `validate_routes` accepts, numbering its routes from
/// 1 in declaration order, each route before its children.
pub fn create_router<H, C: IntoRoutes<H>>(routes: C) -> (r: DeclarativeRouter<H>)
    requires
        route_table_ok(routes.routes_of()),
    ensures
        renumbered(routes.routes_of(), r.spec_routes(), 1),
{
    let routes = routes.into_routes();
    let ghost table = routes@;
    let (numbered, _) = renumber_routes(routes, 1);
    proof {
        lemma_renumbered_max_score_upto(table, numbered@, table.len() as int, 1);
    }
    DeclarativeRouter { routes: numbered }
}

/// Builds a router, or gives `None` for a table that `create_router` does not accept.
pub fn try_create_router<H, C: IntoRoutes<H>>(routes: C) -> (r: Option<DeclarativeRouter<H>>)
    ensures
        match r {
            Some(router) => route_table_ok(routes.routes_of()) && renumbered(
                routes.routes_of(),
                router.spec_routes(),
                1,
            ),
            None => !route_table_ok(routes.routes_of()),
        },
{
    let routes = routes.into_routes();
    if !validate_routes(&routes) {
        return None;
    }
    Some(create_router(routes))
}

/// The identifiers of a table in declaration order, each route before its children.
pub open spec fn ids_in_order<H>(routes: Seq<Route<H>>) -> Seq<u64>
    decreases routes, 1nat, 0int,
{
    ids_upto(routes, routes.len() as int)
}

pub open spec fn ids_upto<H>(routes: Seq<Route<H>>, n: int) -> Seq<u64>
    decreases routes, 0nat, n,
{
    if n <= 0 || n > routes.len() {
        Seq::empty()
    } else {
        ids_upto(routes, n - 1) + route_ids(routes[n - 1])
    }
}

pub open spec fn route_ids<H>(r: Route<H>) -> Seq<u64>
    decreases r, 2nat, 0int,
{
    seq![r.spec_id()] + ids_in_order(r.spec_children())
}

proof fn lemma_ids_upto<H>(a: Seq<Route<H>>, b: Seq<Route<H>>, n: int, start: int)
    requires
        0 <= n <= a.len(),
        a.len() == b.len(),
        renumbered_upto(a, b, n, start),
    ensures
        ids_upto(b, n).len() == count_upto(a, n),
        forall|k: int| 0 <= k < ids_upto(b, n).len() ==> ids_upto(b, n)[k] == start + k,
    decreases a, 0nat, n,
{
    if n > 0 {
        lemma_ids_upto(a, b, n - 1, start);
        let c = count_upto(a, n - 1);
        lemma_route_ids(a[n - 1], b[n - 1], start + c);
        let left = ids_upto(b, n - 1);
        let right = route_ids(b[n - 1]);
        assert(ids_upto(b, n) == left + right);
        assert forall|k: int| 0 <= k < ids_upto(b, n).len() implies ids_upto(b, n)[k] == start + k by {
            if k < left.len() {
                assert(ids_upto(b, n)[k] == left[k]);
            } else {
                assert(ids_upto(b, n)[k] == right[k - left.len()]);
            }
        }
    }
}

proof fn lemma_route_ids<H>(a: Route<H>, b: Route<H>, start: int)
    requires
        route_renumbered(a, b, start),
    ensures
        route_ids(b).len() == 1 + route_count(a.spec_children()),
        forall|k: int| 0 <= k < route_ids(b).len() ==> route_ids(b)[k] == start + k,
    decreases a, 2nat, 0int,
{
    lemma_ids_upto(a.spec_children(), b.spec_children(), a.spec_children().len() as int, start + 1);
    let rest = ids_in_order(b.spec_children());
    assert forall|k: int| 0 <= k < route_ids(b).len() implies route_ids(b)[k] == start + k by {
        if k > 0 {
            assert(route_ids(b)[k] == rest[k - 1]);
        }
    }
}

/// `create_router` numbers the routes of a table 1, 2, 3, ... in declaration order, each
/// route before its children, so no two routes share an identifier.
pub proof fn law_route_ids_are_consecutive<H>(table: Seq<Route<H>>, numbered: Seq<Route<H>>)
    requires
        renumbered(table, numbered, 1),
    ensures
        ids_in_order(numbered).len() == route_count(table),
        forall|k: int| 0 <= k < ids_in_order(numbered).len() ==> ids_in_order(numbered)[k] == k + 1,
{
    lemma_ids_upto(table, numbered, table.len() as int, 1);
}

} // verus!
