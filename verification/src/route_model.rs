//! The mathematical model of the route tree.
//!
//! A tree is modelled as a map from key paths to entries. A key path is the
//! sequence of edge keys that leads from the root to a node; the entry holds
//! what the node stores. An edge key is a literal segment, or the reserved
//! key [`custom_param`] that stands for every parameter segment.

use crate::text::{
    first_index, lemma_first_index_bounds, lemma_first_index_is, lemma_split_covers, split, split_once,
};
use vstd::prelude::*;

verus! {

/// What a node stores besides its children.
pub struct RouteEntry {
    /// The segment as it was written in the pattern that last passed here.
    pub original: Seq<char>,
    /// The handler registered for the route that ends here.
    pub handler: Option<Seq<char>>,
}

/// A route tree as a map from key paths to entries.
pub type RouteMap = Map<Seq<Seq<char>>, RouteEntry>;

/// What resolving a path yields.
pub struct Resolution {
    /// The handler of the matched route, if a route matched.
    pub handler: Option<Seq<char>>,
    /// Query pairs and captured path parameters.
    pub variables: Map<Seq<char>, Seq<char>>,
}

/// The edge key shared by all parameter segments.
pub open spec fn custom_param() -> Seq<char> {
    "CUSTOM_PARAM"@
}

/// A segment that begins with `<` declares a path parameter.
pub open spec fn is_parameter(segment: Seq<char>) -> bool {
    segment.len() > 0 && segment[0] == '<'
}

/// The name that a parameter segment declares: what stands after its `<`,
/// without the `>` that closes it, if there is one. A segment that is no
/// parameter stands for itself.
pub open spec fn parameter_name(segment: Seq<char>) -> Seq<char> {
    if is_parameter(segment) {
        let inner = segment.skip(1);
        if inner.len() > 0 && inner.last() == '>' {
            inner.drop_last()
        } else {
            inner
        }
    } else {
        segment
    }
}

/// The key of the edge that a pattern segment is stored under.
pub open spec fn edge_key(segment: Seq<char>) -> Seq<char> {
    if is_parameter(segment) {
        custom_param()
    } else {
        segment
    }
}

/// The segments that registering a parameterized pattern walks: its
/// `/`-separated pieces, without the empty ones that are not last.
pub open spec fn pattern_segments(pattern: Seq<char>) -> Seq<Seq<char>> {
    let pieces = split(pattern, '/');
    pieces.drop_last().filter(|s: Seq<char>| s.len() > 0).push(pieces.last())
}

/// The edge keys of a list of pattern segments.
pub open spec fn keys_of(segments: Seq<Seq<char>>) -> Seq<Seq<char>> {
    Seq::new(segments.len(), |i: int| edge_key(segments[i]))
}

/// Whether `path` leads to a node on the way along `segments`.
pub open spec fn on_route(path: Seq<Seq<char>>, segments: Seq<Seq<char>>) -> bool {
    0 < path.len() <= segments.len() && path == keys_of(segments).take(path.len() as int)
}

/// The tree after the route along `segments` has been inserted with handler
/// `handler`. Every node on the way exists afterwards and carries the segment
/// text of this route; the last one carries the handler. Nothing else changes.
pub open spec fn insert_route(m: RouteMap, segments: Seq<Seq<char>>, handler: Seq<char>) -> RouteMap {
    Map::new(
        |p: Seq<Seq<char>>| m.dom().contains(p) || on_route(p, segments),
        |p: Seq<Seq<char>>|
            if on_route(p, segments) {
                RouteEntry {
                    original: segments[p.len() - 1],
                    handler: if p.len() == segments.len() {
                        Some(handler)
                    } else if m.dom().contains(p) {
                        m[p].handler
                    } else {
                        None
                    },
                }
            } else {
                m[p]
            },
    )
}

/// The tree after a pattern without parameters has been stored whole, as one
/// edge below the root. A node that was stored under that key before is
/// replaced together with everything below it.
pub open spec fn insert_literal(m: RouteMap, pattern: Seq<char>, handler: Seq<char>) -> RouteMap {
    Map::new(
        |p: Seq<Seq<char>>| p == seq![pattern] || (m.dom().contains(p) && p.first() != pattern),
        |p: Seq<Seq<char>>|
            if p == seq![pattern] {
                RouteEntry { original: pattern, handler: Some(handler) }
            } else {
                m[p]
            },
    )
}

/// The tree after `pattern` has been registered for `handler`.
pub open spec fn register(m: RouteMap, pattern: Seq<char>, handler: Seq<char>) -> RouteMap {
    if pattern.contains('<') {
        insert_route(m, pattern_segments(pattern), handler)
    } else {
        insert_literal(m, pattern, handler)
    }
}

/// The tree after the routes have been registered in order.
pub open spec fn register_all(m: RouteMap, routes: Seq<(Seq<char>, Seq<char>)>) -> RouteMap
    decreases routes.len(),
{
    if routes.len() == 0 {
        m
    } else {
        register(register_all(m, routes.drop_last()), routes.last().0, routes.last().1)
    }
}

/// The part of a request path before its first `?`.
pub open spec fn route_part(path: Seq<char>) -> Seq<char> {
    match split_once(path, '?') {
        Some((route, query)) => route,
        None => path,
    }
}

/// The part of a request path after its first `?`; empty when there is none.
pub open spec fn query_part(path: Seq<char>) -> Seq<char> {
    match split_once(path, '?') {
        Some((route, query)) => query,
        None => Seq::empty(),
    }
}

/// The variables that a list of query pieces defines: each piece with a `=`
/// binds what stands before its first `=` to what stands after it, later
/// pieces winning over earlier ones; pieces without `=` are ignored.
pub open spec fn pairs_to_map(pieces: Seq<Seq<char>>) -> Map<Seq<char>, Seq<char>>
    decreases pieces.len(),
{
    if pieces.len() == 0 {
        Map::empty()
    } else {
        let earlier = pairs_to_map(pieces.drop_last());
        match split_once(pieces.last(), '=') {
            Some((key, value)) => earlier.insert(key, value),
            None => earlier,
        }
    }
}

/// The variables that a query string defines.
pub open spec fn query_variables(query: Seq<char>) -> Map<Seq<char>, Seq<char>> {
    pairs_to_map(split(query, '&'))
}

/// The segments that resolution walks: the `/`-separated pieces of the route
/// without the first, which is what stands before the leading `/`.
pub open spec fn path_segments(route: Seq<char>) -> Seq<Seq<char>> {
    split(route, '/').skip(1)
}

/// The tree below the node at `at`, as seen from that node.
pub open spec fn subtree(m: RouteMap, at: Seq<Seq<char>>) -> RouteMap {
    Map::new(|q: Seq<Seq<char>>| q.len() > 0 && m.dom().contains(at + q), |q: Seq<Seq<char>>| m[at + q])
}

/// The edge that a node with the tree `below` offers for a path segment: the
/// edge with that very key if there is one; else, where `fallback` allows it,
/// the parameter edge if there is one.
pub open spec fn edge_taken(below: RouteMap, segment: Seq<char>, fallback: bool) -> Option<Seq<char>> {
    if below.dom().contains(seq![segment]) {
        Some(segment)
    } else if fallback && below.dom().contains(seq![custom_param()]) {
        Some(custom_param())
    } else {
        None
    }
}

/// The edge taken from the node at `at` for path segment `segment`: the edge
/// with that very key if there is one, else the parameter edge if there is
/// one.
pub open spec fn step_key(m: RouteMap, at: Seq<Seq<char>>, segment: Seq<char>) -> Option<Seq<char>> {
    if m.dom().contains(at.push(segment)) {
        Some(segment)
    } else if m.dom().contains(at.push(custom_param())) {
        Some(custom_param())
    } else {
        None
    }
}

/// Walks `segments` down from the node at `at`. A segment without an edge
/// ends the walk without a match. Each parameter edge taken binds the name
/// that the segment text stored at its node declares to the segment. The walk yields the handler of the node
/// that the last segment leads to.
pub open spec fn walk(
    m: RouteMap,
    at: Seq<Seq<char>>,
    segments: Seq<Seq<char>>,
    variables: Map<Seq<char>, Seq<char>>,
) -> Resolution
    decreases segments.len(),
{
    if segments.len() == 0 {
        Resolution { handler: None, variables }
    } else {
        match step_key(m, at, segments[0]) {
            None => Resolution { handler: None, variables },
            Some(key) => {
                let next = at.push(key);
                let bound = if key == custom_param() {
                    variables.insert(parameter_name(m[next].original), segments[0])
                } else {
                    variables
                };
                if segments.len() == 1 {
                    Resolution { handler: m[next].handler, variables: bound }
                } else {
                    walk(m, next, segments.skip(1), bound)
                }
            },
        }
    }
}

/// Whether the whole of `path` is the key of an edge below the root whose
/// node carries a handler.
pub open spec fn is_direct(m: RouteMap, path: Seq<char>) -> bool {
    m.dom().contains(seq![path]) && m[seq![path]].handler is Some
}

/// What resolving `path` yields: the handler of the node stored under the
/// whole path, with no variables, if there is one; else the result of walking
/// the segments of its route part, starting from its query variables.
pub open spec fn resolve(m: RouteMap, path: Seq<char>) -> Resolution {
    if is_direct(m, path) {
        Resolution { handler: m[seq![path]].handler, variables: Map::empty() }
    } else {
        walk(m, Seq::empty(), path_segments(route_part(path)), query_variables(query_part(path)))
    }
}

/// Going down from the node at `at` by `key` leads to the node at
/// `at.push(key)`, and taking an edge there is taking it in the whole tree.
pub proof fn lemma_subtree_step(m: RouteMap, at: Seq<Seq<char>>, key: Seq<char>)
    ensures
        subtree(subtree(m, at), seq![key]) == subtree(m, at.push(key)),
        subtree(m, at).dom().contains(seq![key]) <==> m.dom().contains(at.push(key)),
        m.dom().contains(at.push(key)) ==> subtree(m, at)[seq![key]] == m[at.push(key)],
        forall|segment: Seq<char>| #[trigger]
            step_key(m, at, segment) == edge_taken(subtree(m, at), segment, true),
{
    assert(at + seq![key] =~= at.push(key));
    assert forall|q: Seq<Seq<char>>| at + (seq![key] + q) == at.push(key) + q by {
        assert(at + (seq![key] + q) =~= at.push(key) + q);
    }
    assert(subtree(subtree(m, at), seq![key]) =~= subtree(m, at.push(key)));
    assert forall|segment: Seq<char>| #[trigger]
        step_key(m, at, segment) == edge_taken(subtree(m, at), segment, true) by {
        assert(at + seq![segment] =~= at.push(segment));
        assert(at + seq![custom_param()] =~= at.push(custom_param()));
    }
}

/// A tree whose paths are all non-empty is its own subtree at the root.
pub proof fn lemma_subtree_root(m: RouteMap)
    requires
        forall|p: Seq<Seq<char>>| m.dom().contains(p) ==> p.len() > 0,
    ensures
        subtree(m, Seq::empty()) == m,
{
    assert forall|q: Seq<Seq<char>>| Seq::<Seq<char>>::empty() + q == q by {
        assert(Seq::<Seq<char>>::empty() + q =~= q);
    }
    assert(subtree(m, Seq::empty()) =~= m);
}

/// A path of one key is on a route exactly if it is the route's first key.
pub proof fn lemma_on_route_first(path: Seq<Seq<char>>, segments: Seq<Seq<char>>)
    requires
        path.len() >= 1,
        segments.len() >= 1,
    ensures
        on_route(path, segments) ==> path[0] == edge_key(segments[0]),
        path.len() == 1 && path[0] == edge_key(segments[0]) ==> on_route(path, segments),
{
    let keys = keys_of(segments);
    if on_route(path, segments) {
        assert(path[0] == keys.take(path.len() as int)[0]);
    }
    if path.len() == 1 && path[0] == edge_key(segments[0]) {
        assert(path =~= keys.take(1));
    }
}

/// A longer path is on a route exactly if it starts with the route's first
/// key and its rest is on the rest of the route.
pub proof fn lemma_on_route_rest(path: Seq<Seq<char>>, segments: Seq<Seq<char>>)
    requires
        path.len() >= 2,
        segments.len() >= 1,
    ensures
        on_route(path, segments) <==> path[0] == edge_key(segments[0]) && on_route(
            path.skip(1),
            segments.skip(1),
        ),
{
    let keys = keys_of(segments);
    let rest_keys = keys_of(segments.skip(1));
    let n = path.len() as int;
    if on_route(path, segments) {
        assert(path[0] == keys.take(n)[0]);
        assert forall|i: int| 0 <= i < n - 1 implies path.skip(1)[i] == rest_keys.take(n - 1)[i] by {
            assert(path[i + 1] == keys.take(n)[i + 1]);
        }
        assert(path.skip(1) =~= rest_keys.take(n - 1));
    }
    if path[0] == edge_key(segments[0]) && on_route(path.skip(1), segments.skip(1)) {
        assert forall|i: int| 0 <= i < n implies path[i] == keys.take(n)[i] by {
            if i > 0 {
                assert(path.skip(1)[i - 1] == rest_keys.take(n - 1)[i - 1]);
            }
        }
        assert(path =~= keys.take(n));
    }
}

/// A parameterized pattern has more than one segment, or its only segment
/// holds a `<`.
pub proof fn lemma_single_segment_has_marker(pattern: Seq<char>)
    requires
        pattern.contains('<'),
        pattern_segments(pattern).len() == 1,
    ensures
        pattern_segments(pattern)[0].contains('<'),
{
    let pieces = split(pattern, '/');
    let keep = |s: Seq<char>| s.len() > 0;
    let front = pieces.drop_last();
    lemma_split_covers(pattern, '/', '<');
    let k = choose|k: int| 0 <= k < pieces.len() && (#[trigger] pieces[k]).contains('<');
    assert(front.filter(keep).len() == 0);
    if k < pieces.len() - 1 {
        assert(front[k] == pieces[k]);
        assert(keep(front[k]));
        front.lemma_filter_contains(keep, k);
    }
}

/// Registering another pattern leaves the handler of a literal route alone.
pub proof fn lemma_register_keeps_literal(
    m: RouteMap,
    literal: Seq<char>,
    handler: Seq<char>,
    pattern: Seq<char>,
    other: Seq<char>,
)
    requires
        !literal.contains('<'),
        literal != custom_param(),
        pattern != literal,
        m.dom().contains(seq![literal]),
        m[seq![literal]].handler == Some(handler),
    ensures
        register(m, pattern, other).dom().contains(seq![literal]),
        register(m, pattern, other)[seq![literal]].handler == Some(handler),
{
    let p = seq![literal];
    assert(p[0] == literal);
    if pattern.contains('<') {
        let segments = pattern_segments(pattern);
        lemma_on_route_first(p, segments);
        if on_route(p, segments) && segments.len() == 1 {
            lemma_single_segment_has_marker(pattern);
            assert(is_parameter(segments[0]) || segments[0] == literal);
        }
    } else {
        assert(seq![pattern][0] == pattern);
    }
}

/// A literal route resolves to its own handler, without variables, whatever
/// routes are registered after it, parameterized ones among them, as long as
/// the same pattern is not registered again.
pub proof fn law_literal_precedence(
    m: RouteMap,
    literal: Seq<char>,
    handler: Seq<char>,
    later: Seq<(Seq<char>, Seq<char>)>,
)
    requires
        !literal.contains('<'),
        literal != custom_param(),
        forall|i: int| 0 <= i < later.len() ==> (#[trigger] later[i]).0 != literal,
    ensures
        register_all(register(m, literal, handler), later).dom().contains(seq![literal]),
        register_all(register(m, literal, handler), later)[seq![literal]].handler == Some(handler),
        resolve(register_all(register(m, literal, handler), later), literal) == (Resolution {
            handler: Some(handler),
            variables: Map::empty(),
        }),
    decreases later.len(),
{
    if later.len() > 0 {
        let earlier = later.drop_last();
        assert forall|i: int| 0 <= i < earlier.len() implies (#[trigger] earlier[i]).0 != literal by {
            assert(earlier[i] == later[i]);
        }
        law_literal_precedence(m, literal, handler, earlier);
        lemma_register_keeps_literal(
            register_all(register(m, literal, handler), earlier),
            literal,
            handler,
            later.last().0,
            later.last().1,
        );
    }
}

/// The handler that a walk ends at does not depend on the variables that it
/// starts with, and its variables are those that it starts with, overridden
/// by the parameters that it binds.
pub proof fn lemma_walk_variables(
    m: RouteMap,
    at: Seq<Seq<char>>,
    segments: Seq<Seq<char>>,
    variables: Map<Seq<char>, Seq<char>>,
)
    ensures
        walk(m, at, segments, variables).handler == walk(m, at, segments, Map::empty()).handler,
        walk(m, at, segments, variables).variables == variables.union_prefer_right(
            walk(m, at, segments, Map::empty()).variables,
        ),
    decreases segments.len(),
{
    let none = Map::<Seq<char>, Seq<char>>::empty();
    let bare = walk(m, at, segments, none);
    let full = walk(m, at, segments, variables);
    if segments.len() == 0 {
        assert(variables =~= variables.union_prefer_right(none));
    } else {
        match step_key(m, at, segments[0]) {
            None => {
                assert(variables =~= variables.union_prefer_right(none));
            },
            Some(key) => {
                let next = at.push(key);
                let name = parameter_name(m[next].original);
                if segments.len() == 1 {
                    if key == custom_param() {
                        assert(variables.insert(name, segments[0]) =~= variables.union_prefer_right(
                            none.insert(name, segments[0]),
                        ));
                    } else {
                        assert(variables =~= variables.union_prefer_right(none));
                    }
                } else {
                    let rest = segments.skip(1);
                    if key == custom_param() {
                        let bound = variables.insert(name, segments[0]);
                        let bare_bound = none.insert(name, segments[0]);
                        lemma_walk_variables(m, next, rest, bound);
                        lemma_walk_variables(m, next, rest, bare_bound);
                        let below = walk(m, next, rest, none).variables;
                        assert(bound.union_prefer_right(below) =~= variables.union_prefer_right(
                            bare_bound.union_prefer_right(below),
                        ));
                    } else {
                        lemma_walk_variables(m, next, rest, variables);
                    }
                }
            },
        }
    }
}

/// A path without `?` has itself as route part and defines no query
/// variables; a route followed by `?` and a query has these two as its parts.
pub proof fn lemma_path_parts(route: Seq<char>, query: Seq<char>)
    requires
        !route.contains('?'),
    ensures
        route_part(route) == route,
        query_variables(query_part(route)) == Map::<Seq<char>, Seq<char>>::empty(),
        route_part(route + seq!['?'] + query) == route,
        query_part(route + seq!['?'] + query) == query,
{
    let path = route + seq!['?'] + query;
    lemma_first_index_bounds(route, '?');
    assert forall|j: int| 0 <= j < route.len() implies path[j] != '?' by {
        assert(path[j] == route[j]);
        assert(route.contains(route[j]));
    }
    assert(path[route.len() as int] == '?');
    lemma_first_index_is(path, '?', route.len() as int);
    assert(path.take(route.len() as int) =~= route);
    assert(path.skip(route.len() as int + 1) =~= query);
    let nothing = Seq::<char>::empty();
    assert(first_index(nothing, '&') == 0);
    assert(split(nothing, '&') =~= seq![nothing]);
    assert(first_index(nothing, '=') == 0);
    let pieces = seq![nothing];
    assert(pieces.drop_last() =~= Seq::<Seq<char>>::empty());
    assert(pairs_to_map(pieces.drop_last()) == Map::<Seq<char>, Seq<char>>::empty());
    assert(pieces.last() == nothing);
    assert(pairs_to_map(pieces) == Map::<Seq<char>, Seq<char>>::empty());
}

/// A query string does not change the route that a path matches: where
/// neither the route alone nor the route with the query is itself the key of
/// a node below the root with a handler, both resolve to the same handler,
/// and the variables of the path with the query are the query's pairs,
/// overridden by the parameters that the route binds.
pub proof fn law_query_string_independence(m: RouteMap, route: Seq<char>, query: Seq<char>)
    requires
        !route.contains('?'),
        !is_direct(m, route),
        !is_direct(m, route + seq!['?'] + query),
    ensures
        resolve(m, route + seq!['?'] + query).handler == resolve(m, route).handler,
        resolve(m, route + seq!['?'] + query).variables == query_variables(query).union_prefer_right(
            resolve(m, route).variables,
        ),
{
    lemma_path_parts(route, query);
    lemma_walk_variables(m, Seq::empty(), path_segments(route), query_variables(query));
}

/// Registering a pattern again replaces the handler and nothing else: the
/// tree is the one that the second registration alone would have given, and
/// has the nodes that the first one left.
pub proof fn law_reregistration(m: RouteMap, pattern: Seq<char>, first: Seq<char>, second: Seq<char>)
    ensures
        register(register(m, pattern, first), pattern, second) == register(m, pattern, second),
        register(register(m, pattern, first), pattern, second).dom() == register(
            m,
            pattern,
            first,
        ).dom(),
{
    let once = register(m, pattern, first);
    let twice = register(once, pattern, second);
    let direct = register(m, pattern, second);
    assert(twice.dom() =~= once.dom());
    assert(twice =~= direct);
}

} // verus!
