use vstd::prelude::*;

use super::location::{location_of, resolve_path_of, Location, LocationView};
use super::normal_form::{free_of, law_resolve_from_keeps_query_and_fragment};
use super::params::PathParams;
use crate::text::{chars_of, string_of};

verus! {

/// The identifier `create_router` gives each route of a table.
#[derive(Clone, Copy, Debug, PartialEq, Eq, Hash)]
pub struct RouteId(pub u64);

impl RouteId {
    pub fn get(self) -> (r: u64)
        ensures
            r == self.0,
    {
        self.0
    }
}

/// The mathematical content of a `RouteMatch`.
pub struct RouteMatchView<H> {
    pub id: u64,
    pub pattern: Seq<char>,
    pub pathname: Seq<char>,
    pub params: Map<Seq<char>, Seq<char>>,
    pub handle: Option<H>,
}

/// One matched route of a branch.
pub struct RouteMatch<H> {
    pub(crate) id: RouteId,
    pub(crate) pattern: &'static str,
    pub(crate) pathname: String,
    pub(crate) params: PathParams,
    pub(crate) handle: Option<H>,
}

impl<H> View for RouteMatch<H> {
    type V = RouteMatchView<H>;

    closed spec fn view(&self) -> RouteMatchView<H> {
        RouteMatchView {
            id: self.id.0,
            pattern: self.pattern@,
            pathname: self.pathname@,
            params: self.params@,
            handle: self.handle,
        }
    }
}

impl<H: Copy> RouteMatch<H> {
    /// A match built from its parts.
    pub(crate) fn from_parts(
        id: RouteId,
        pattern: &'static str,
        pathname: String,
        params: PathParams,
        handle: Option<H>,
    ) -> (r: RouteMatch<H>)
        ensures
            r@ == (RouteMatchView {
                id: id.0,
                pattern: pattern@,
                pathname: pathname@,
                params: params@,
                handle,
            }),
    {
        RouteMatch { id, pattern, pathname, params, handle }
    }

    pub fn id(&self) -> (r: RouteId)
        ensures
            r.0 == self@.id,
    {
        self.id
    }

    pub fn pattern(&self) -> (r: &'static str)
        ensures
            r@ == self@.pattern,
    {
        self.pattern
    }

    pub fn pathname(&self) -> (r: &str)
        ensures
            r@ == self@.pathname,
    {
        self.pathname.as_str()
    }

    pub fn params(&self) -> (r: &PathParams)
        ensures
            r@ == self@.params,
    {
        &self.params
    }

    /// The metadata attached to the route, if any.
    pub fn handle(&self) -> (r: Option<H>)
        ensures
            r == self@.handle,
    {
        self.handle
    }

    /// A copy of this match.
    pub fn duplicate(&self) -> (r: RouteMatch<H>)
        ensures
            r@ == self@,
    {
        RouteMatch {
            id: self.id,
            pattern: self.pattern,
            pathname: self.pathname.clone(),
            params: self.params.clone(),
            handle: self.handle,
        }
    }
}

/// The mathematical content of `RouteMatches`.
pub struct RouteMatchesView<H> {
    pub location: Option<LocationView>,
    pub entries: Seq<RouteMatchView<H>>,
}

/// The nearest handle, searching from the deepest entry up.
pub open spec fn deepest_handle_of<H>(entries: Seq<RouteMatchView<H>>) -> Option<H>
    decreases entries.len(),
{
    if entries.len() == 0 {
        None
    } else if entries.last().handle is Some {
        entries.last().handle
    } else {
        deepest_handle_of(entries.drop_last())
    }
}

pub open spec fn saturating_pred(d: int) -> int {
    if d > 0 {
        d - 1
    } else {
        0
    }
}

/// Leading `..` steps climb one matched route each.
pub open spec fn climb(depth: int, rest: Seq<char>) -> (int, Seq<char>)
    decreases rest.len(),
{
    if rest == seq!['.', '.'] {
        (saturating_pred(depth), Seq::empty())
    } else if rest.len() >= 3 && rest[0] == '.' && rest[1] == '.' && rest[2] == '/' {
        climb(saturating_pred(depth), rest.skip(3))
    } else {
        (depth, rest)
    }
}

/// `RouteMatches::resolve_from` over views.
pub open spec fn resolve_from_of<H>(
    entries: Seq<RouteMatchView<H>>,
    depth: int,
    target: Seq<char>,
) -> Option<LocationView> {
    if target.len() > 0 && target[0] == '/' {
        Some(location_of(target))
    } else if entries.len() == 0 {
        None
    } else {
        let start = if depth < entries.len() - 1 {
            depth
        } else {
            entries.len() - 1
        };
        let (d, rest) = climb(start, target);
        Some(location_of(resolve_path_of(entries[d].pathname, rest)))
    }
}

/// How many leading `..` steps a relative target takes, and what follows them.
pub open spec fn leading_up_steps(target: Seq<char>) -> (nat, Seq<char>)
    decreases target.len(),
{
    if target == seq!['.', '.'] {
        (1, Seq::empty())
    } else if target.len() >= 3 && target[0] == '.' && target[1] == '.' && target[2] == '/' {
        let (k, rest) = leading_up_steps(target.skip(3));
        (k + 1, rest)
    } else {
        (0, target)
    }
}

proof fn lemma_climb_steps(depth: int, target: Seq<char>)
    requires
        depth >= 0,
    ensures
        climb(depth, target) == (
            if depth - leading_up_steps(target).0 > 0 {
                depth - leading_up_steps(target).0
            } else {
                0
            },
            leading_up_steps(target).1,
        ),
    decreases target.len(),
{
    if target != seq!['.', '.'] && target.len() >= 3 && target[0] == '.' && target[1] == '.'
        && target[2] == '/' {
        lemma_climb_steps(saturating_pred(depth), target.skip(3));
    }
}

/// Resolving from a matched branch: an absolute target is a new location; otherwise, with
/// no matched route there is nothing to resolve against, and with some, each of the `k`
/// leading `..` steps of the target climbs one route up from the route at `depth` (the
/// deepest when `depth` is beyond it), stopping at the outermost, and what follows the
/// steps is resolved against that route's pathname.
pub proof fn law_resolve_from_climbs<H>(entries: Seq<RouteMatchView<H>>, depth: int, target: Seq<char>)
    requires
        depth >= 0,
    ensures
        target.len() > 0 && target[0] == '/' ==> resolve_from_of(entries, depth, target) == Some(
            location_of(target),
        ),
        !(target.len() > 0 && target[0] == '/') && entries.len() == 0 ==> resolve_from_of(
            entries,
            depth,
            target,
        ) is None,
        !(target.len() > 0 && target[0] == '/') && entries.len() > 0 ==> {
            let start = if depth < entries.len() - 1 {
                depth
            } else {
                entries.len() - 1
            };
            let (k, rest) = leading_up_steps(target);
            let up = if start - k > 0 {
                start - k
            } else {
                0
            };
            resolve_from_of(entries, depth, target) == Some(
                location_of(resolve_path_of(entries[up].pathname, rest)),
            )
        },
{
    if entries.len() > 0 {
        let start = if depth < entries.len() - 1 {
            depth
        } else {
            entries.len() - 1
        };
        lemma_climb_steps(start, target);
    }
}

/// The matched branch for a location, from the outermost route to the deepest.
pub struct RouteMatches<H> {
    pub(crate) location: Option<Location>,
    pub(crate) entries: Vec<RouteMatch<H>>,
}

impl<H> View for RouteMatches<H> {
    type V = RouteMatchesView<H>;

    closed spec fn view(&self) -> RouteMatchesView<H> {
        RouteMatchesView {
            location: match self.location {
                Some(l) => Some(l@),
                None => None,
            },
            entries: self.entries@.map_values(|m: RouteMatch<H>| m@),
        }
    }
}

impl<H: Copy> RouteMatches<H> {
    /// A branch built from its parts.
    pub(crate) fn from_parts(location: Option<Location>, entries: Vec<RouteMatch<H>>) -> (r:
        RouteMatches<H>)
        ensures
            r@.location == match location {
                Some(l) => Some(l@),
                None => None::<LocationView>,
            },
            r@.entries == entries@.map_values(|m: RouteMatch<H>| m@),
    {
        RouteMatches { location, entries }
    }

    pub fn location(&self) -> (r: Option<&Location>)
        ensures
            match r {
                Some(l) => self@.location == Some(l@),
                None => self@.location is None,
            },
    {
        match &self.location {
            Some(l) => Some(l),
            None => None,
        }
    }

    pub fn entries(&self) -> (r: &[RouteMatch<H>])
        ensures
            r@.map_values(|m: RouteMatch<H>| m@) == self@.entries,
    {
        self.entries.as_slice()
    }

    /// The deepest matched route.
    pub fn current(&self) -> (r: Option<&RouteMatch<H>>)
        ensures
            match r {
                Some(m) => self@.entries.len() > 0 && m@ == self@.entries.last(),
                None => self@.entries.len() == 0,
            },
    {
        if self.entries.len() == 0 {
            None
        } else {
            Some(&self.entries[self.entries.len() - 1])
        }
    }

    /// The nearest metadata value: child routes override, and otherwise inherit, the
    /// handles of their parents.
    pub fn deepest_handle(&self) -> (r: Option<H>)
        ensures
            r == deepest_handle_of(self@.entries),
    {
        let ghost all = self@.entries;
        let mut i = self.entries.len();
        assert(all.take(i as int) =~= all);
        while i > 0
            invariant
                i <= self.entries@.len(),
                all == self@.entries,
                deepest_handle_of(all) == deepest_handle_of(all.take(i as int)),
            decreases i,
        {
            assert(all.take(i as int).last() == self.entries@[i - 1]@);
            if self.entries[i - 1].handle.is_some() {
                return self.entries[i - 1].handle;
            }
            assert(all.take(i as int).drop_last() =~= all.take(i - 1));
            i = i - 1;
        }
        None
    }

    /// Resolves using route-tree ancestry: each leading `..` selects the previous matched
    /// route, even when the current route consumed several URL segments.
    pub fn resolve_from(&self, depth: usize, target: &str) -> (r: Option<Location>)
        ensures
            match r {
                Some(l) => resolve_from_of(self@.entries, depth as int, target@) == Some(l@),
                None => resolve_from_of(self@.entries, depth as int, target@) is None,
            },
            (forall|i: int|
                0 <= i < self@.entries.len() ==> free_of(#[trigger] self@.entries[i].pathname, '?') && free_of(
                    self@.entries[i].pathname,
                    '#',
                )) ==> (r matches Some(l) ==> l@.query == location_of(target@).query && l@.fragment
                == location_of(target@).fragment),
    {
        proof {
            if forall|i: int|
                0 <= i < self@.entries.len() ==> free_of(#[trigger] self@.entries[i].pathname, '?') && free_of(
                    self@.entries[i].pathname,
                    '#',
                ) {
                law_resolve_from_keeps_query_and_fragment(self@.entries, depth as int, target@);
            }
        }
        let chars = chars_of(target);
        if chars.len() > 0 && chars[0] == '/' {
            return Some(Location::new(target));
        }
        if self.entries.len() == 0 {
            return None;
        }
        let last = self.entries.len() - 1;
        let mut depth = if depth < last { depth } else { last };
        let mut from: usize = 0;
        let ghost start = depth as int;
        assert(chars@.skip(0) =~= chars@);
        loop
            invariant
                from <= chars@.len(),
                depth <= last,
                last == self.entries@.len() - 1,
                climb(start, chars@) == climb(depth as int, chars@.skip(from as int)),
            ensures
                from <= chars@.len(),
                depth <= last,
                climb(start, chars@) == (depth as int, chars@.skip(from as int)),
            decreases chars@.len() - from,
        {
            let rest_len = chars.len() - from;
            let ghost rest = chars@.skip(from as int);
            if rest_len == 2 && chars[from] == '.' && chars[from + 1] == '.' {
                assert(rest =~= seq!['.', '.']);
                depth = if depth > 0 { depth - 1 } else { 0 };
                from = chars.len();
                assert(chars@.skip(from as int) =~= Seq::<char>::empty());
                break;
            }
            if rest_len >= 3 && chars[from] == '.' && chars[from + 1] == '.' && chars[from + 2] == '/' {
                assert(rest != seq!['.', '.']);
                assert(rest.skip(3) =~= chars@.skip(from + 3));
                depth = if depth > 0 { depth - 1 } else { 0 };
                from = from + 3;
            } else {
                proof {
                    if rest == seq!['.', '.'] {
                        assert(rest.len() == 2 && rest[0] == '.' && rest[1] == '.');
                    }
                }
                break;
            }
        }
        let mut remainder: Vec<char> = Vec::new();
        let mut i = from;
        while i < chars.len()
            invariant
                from <= i <= chars@.len(),
                remainder@ == chars@.subrange(from as int, i as int),
            decreases chars@.len() - i,
        {
            remainder.push(chars[i]);
            i = i + 1;
            assert(remainder@ =~= chars@.subrange(from as int, i as int));
        }
        assert(remainder@ =~= chars@.skip(from as int));
        let base = chars_of(self.entries[depth].pathname.as_str());
        let path = super::location::resolve_path_chars(&base, &remainder);
        Some(Location::new(string_of(&path).as_str()))
    }

    /// Resolves `target` from the deepest matched route.
    pub fn resolve(&self, target: &str) -> (r: Option<Location>)
        ensures
            match r {
                Some(l) => self@.entries.len() > 0 && resolve_from_of(
                    self@.entries,
                    self@.entries.len() - 1,
                    target@,
                ) == Some(l@),
                None => self@.entries.len() == 0,
            },
    {
        if self.entries.len() == 0 {
            return None;
        }
        self.resolve_from(self.entries.len() - 1, target)
    }
}

} // verus!
