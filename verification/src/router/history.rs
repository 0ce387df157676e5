use vstd::prelude::*;

verus! {

/// How the router moved to its current location.
#[derive(Clone, Copy, Debug, PartialEq, Eq, Structural)]
pub enum RouteAction {
    Navigate,
    Replace,
    Back,
}

/// A move of the router from one location to another.
#[derive(Clone, Debug, PartialEq, Eq)]
pub struct RouteChange<R> {
    pub previous: R,
    pub current: R,
    pub action: RouteAction,
}

} // verus!
