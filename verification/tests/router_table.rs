use lgui::router::location::Location;
use lgui::router::table::{
    create_router, index, layout, not_found, redirect, redirect_replacement, route, scope,
    try_create_router, validate_routes, IntoRoutes, Route,
};

#[derive(Clone, Copy, Debug, PartialEq, Eq)]
enum NavigationHandle {
    Primary,
    Section(&'static str),
    Detail,
}

fn nested_routes_case() {
    let router = create_router(layout(
        scope(
            "/community",
            (
                index().handle(NavigationHandle::Section("feed")),
                route("events").handle(NavigationHandle::Section("events")),
                route("articles/:article_id").handle(NavigationHandle::Detail),
            ),
        )
        .handle(NavigationHandle::Primary),
    ));

    let matches = router
        .matches(&Location::new(
            "/community/articles/hello%20world?tab=comments",
        ))
        .expect("nested route match");
    assert_eq!(matches.entries().len(), 3);
    assert_eq!(matches.location().unwrap().query(), Some("tab=comments"));
    assert_eq!(
        matches.current().unwrap().params().get("article_id"),
        Some("hello world")
    );
    assert_eq!(matches.deepest_handle(), Some(NavigationHandle::Detail));
    assert_eq!(matches.resolve("..").unwrap().path(), "/community");
}

fn wildcard_case() {
    let router = create_router(route::<NavigationHandle>("/files/*path"));
    let matches = router
        .matches(&Location::new("/files/images/hello%20world.png"))
        .expect("wildcard match");

    assert_eq!(
        matches.current().unwrap().params().get("path"),
        Some("images/hello world.png")
    );
}

fn child_handle_case() {
    let router = create_router(
        scope("/community", route("events")).handle(NavigationHandle::Section("community")),
    );
    let matches = router
        .matches(&Location::new("/community/events"))
        .expect("route match");
    assert_eq!(
        matches.deepest_handle(),
        Some(NavigationHandle::Section("community"))
    );
}

fn fallback_case() {
    let router = create_router((
        route("/store"),
        not_found().handle(NavigationHandle::Detail),
    ));
    assert_eq!(
        router
            .matches(&Location::new("/store"))
            .unwrap()
            .current()
            .unwrap()
            .pattern(),
        "/store"
    );
    assert_eq!(
        router
            .matches(&Location::new("/missing"))
            .unwrap()
            .current()
            .unwrap()
            .pattern(),
        "<not-found>"
    );
}

fn most_specific_case() {
    let router = create_router((
        route("/community/:article_id"),
        scope(
            "/community",
            route("events").handle(NavigationHandle::Section("events")),
        ),
    ));
    let matches = router
        .matches(&Location::new("/community/events"))
        .expect("specific nested branch");

    assert_eq!(matches.entries().len(), 2);
    assert_eq!(matches.current().unwrap().pattern(), "events");
    assert_eq!(
        matches.deepest_handle(),
        Some(NavigationHandle::Section("events"))
    );
}

/// A redirect is a route whose rendering replaces the current location with its
/// destination, which moves the router without a new history entry.
fn redirect_case() {
    let routes = create_router::<NavigationHandle, _>((
        redirect("/", "/community"),
        route("/community"),
    ));
    let current = Location::new("/");
    let matches = routes.matches(&current).expect("redirect route matches");
    assert_eq!(matches.current().unwrap().pattern(), "/");
    let table = (redirect::<NavigationHandle>("/", "/community"), route("/community")).into_routes();
    let destination = table[0].redirect_destination().expect("a redirect route");
    let replacement = redirect_replacement(&current, destination).expect("moves away from /");
    assert_eq!(replacement.path(), "/community");
    // The history stack that records the replacement is not part of this library; the
    // redirect only yields the location to replace the current one with.
    assert!(redirect_replacement(&replacement, destination).is_none());
}

#[test]
fn table_nested_routes_match_layouts_index_children_and_dynamic_parameters() {
    nested_routes_case();
}

#[test]
fn table_wildcard_parameters_capture_and_decode_the_remaining_path() {
    wildcard_case();
}

#[test]
fn table_child_routes_inherit_nearest_parent_handle() {
    child_handle_case();
}

#[test]
fn table_fallback_runs_only_after_normal_siblings() {
    fallback_case();
}

#[test]
fn table_matching_prefers_the_most_specific_complete_branch() {
    most_specific_case();
}

#[test]
fn table_redirect_replaces_the_location_without_adding_history() {
    redirect_case();
}

#[test]
fn tests_nested_routes_match_layouts_index_children_and_dynamic_parameters() {
    nested_routes_case();
}

#[test]
fn tests_wildcard_parameters_capture_and_decode_the_remaining_path() {
    wildcard_case();
}

#[test]
fn tests_child_routes_inherit_nearest_parent_handle() {
    child_handle_case();
}

#[test]
fn tests_fallback_runs_only_after_normal_siblings() {
    fallback_case();
}

#[test]
fn tests_matching_prefers_the_most_specific_complete_branch() {
    most_specific_case();
}

#[test]
fn tests_redirect_replaces_the_location_without_adding_history() {
    redirect_case();
}

fn rejected(routes: Vec<Route<NavigationHandle>>) -> bool {
    !validate_routes(&routes)
}

#[test]
fn invalid_tree_shapes_are_rejected_before_router_creation() {
    assert!(rejected(route("relative").into_routes()));
    assert!(rejected(
        route("/root").children(route("/absolute")).into_routes()
    ));
    assert!(rejected(
        (
            route("/community/articles/:article_id"),
            scope("/community", route("articles/:id")),
        )
            .into_routes()
    ));
    assert!(rejected(
        route("/users/:id").children(route("posts/:id")).into_routes()
    ));
    assert!(rejected(Vec::new()));
    assert!(rejected((not_found(), route("/after")).into_routes()));
    assert!(rejected(layout(Vec::new()).into_routes()));
    assert!(rejected((route("/same"), route("/same")).into_routes()));
    assert!(rejected(index().into_routes()));
    assert!(try_create_router(route::<NavigationHandle>("relative")).is_none());
    assert!(try_create_router(route::<NavigationHandle>("/absolute")).is_some());
}

#[test]
fn route_identifiers_follow_declaration_order() {
    let router = create_router((
        scope("/a", (route("x"), route("y"))),
        route::<NavigationHandle>("/b"),
    ));
    let ids = |path: &str| -> Vec<u64> {
        router
            .matches(&Location::new(path))
            .unwrap()
            .entries()
            .iter()
            .map(|entry| entry.id().get())
            .collect()
    };
    assert_eq!(ids("/a/x"), vec![1, 2]);
    assert_eq!(ids("/a/y"), vec![1, 3]);
    assert_eq!(ids("/b"), vec![4]);
}

#[test]
fn unmatched_location_without_fallback_has_no_matches() {
    let router = create_router(route::<NavigationHandle>("/only"));
    assert!(router.matches(&Location::new("/other")).is_none());
}

#[test]
fn children_and_handles_keep_the_route_pattern() {
    let parent: Route<NavigationHandle> = route("/settings/:section")
        .children((index(), route("advanced")))
        .handle(NavigationHandle::Primary);
    assert_eq!(parent.path(), "/settings/:section");
    let router = create_router(parent);
    let matches = router.matches(&Location::new("/settings/display/advanced")).expect("nested match");
    assert_eq!(matches.entries()[0].pattern(), "/settings/:section");
    assert_eq!(matches.resolve("../../..").unwrap().path(), "/settings/display");
    assert_eq!(matches.resolve_from(0, "../x/../y/").unwrap().path(), "/settings/display/y");
    assert_eq!(matches.resolve_from(7, "z?k=v").unwrap().href(), "/settings/display/advanced/z?k=v");
}
