//! The application that each worker context owns: its route tree, the list
//! of routes that the tree was built from, and its cache of loaded handlers.
//!
//! `H` is the type of a loaded handler. The library stores and hands out
//! handlers and never looks inside them.

use crate::handler_cache::{handler_key, HandlerCache, HandlerLookup};
use crate::request::{line_piece, parse_error, Request};
use crate::route_model::{
    custom_param, edge_taken, is_direct, lemma_subtree_root, lemma_subtree_step, pairs_to_map,
    parameter_name, pattern_segments, query_variables, register_all, resolve, subtree, walk,
    RouteEntry, RouteMap,
};
use crate::route_tree::RouteNode;
use crate::string_map::StringMap;
use crate::text::{chars_of, contains_char, opt_view, split_on, split_once_on, string_of, views};
use vstd::prelude::*;

verus! {

/// The views of a list of `(pattern, handler)` pairs.
pub open spec fn pair_views(routes: Seq<(String, String)>) -> Seq<(Seq<char>, Seq<char>)> {
    Seq::new(routes.len(), |i: int| (routes[i].0@, routes[i].1@))
}

/// What is to be done with a request.
pub enum RequestPlan {
    /// Write this response; no handler is involved.
    Respond(String),
    /// Invoke the handler with this id on the request.
    Invoke { request: Request, handler_id: String },
}

/// A worker's application state.
pub struct App<H> {
    raw_routes: Vec<(String, String)>,
    routes_tree: RouteNode,
    handlers: HandlerCache<H>,
    python_app: Option<H>,
}

impl<H> App<H> {
    /// The route tree as a map from key paths to entries.
    pub closed spec fn routes(&self) -> RouteMap {
        self.routes_tree@
    }

    /// The `(pattern, handler)` pairs registered so far, in order.
    pub closed spec fn registered(&self) -> Seq<(Seq<char>, Seq<char>)> {
        pair_views(self.raw_routes@)
    }

    /// The loaded handlers by `(source location, symbol name)`.
    pub closed spec fn handlers(&self) -> Map<(Seq<char>, Seq<char>), H> {
        self.handlers@
    }

    /// The application object that handlers are invoked with, once set.
    pub closed spec fn application(&self) -> Option<H> {
        self.python_app
    }

    /// The representation invariant of the tree and of the cache.
    pub closed spec fn wf(&self) -> bool {
        &&& self.routes_tree.wf()
        &&& self.handlers.wf()
    }

    /// An application without routes, handlers or application object.
    pub fn new() -> (app: Self)
        ensures
            app.wf(),
            app.routes() == Map::<Seq<Seq<char>>, RouteEntry>::empty(),
            app.registered() == Seq::<(Seq<char>, Seq<char>)>::empty(),
            app.handlers() == Map::<(Seq<char>, Seq<char>), H>::empty(),
            app.application() is None,
    {
        let app = App {
            raw_routes: Vec::new(),
            routes_tree: RouteNode::default(),
            handlers: HandlerCache::new(),
            python_app: None,
        };
        assert(app.registered() =~= Seq::<(Seq<char>, Seq<char>)>::empty());
        app
    }

    /// The application of a new worker context: the same routes, no handler
    /// loaded and no application object.
    pub fn new_context(&self) -> (app: Self)
        requires
            self.wf(),
        ensures
            app.wf(),
            app.routes() == self.routes(),
            app.registered() == self.registered(),
            app.handlers() == Map::<(Seq<char>, Seq<char>), H>::empty(),
            app.application() is None,
    {
        let mut raw_routes: Vec<(String, String)> = Vec::new();
        let mut i: usize = 0;
        while i < self.raw_routes.len()
            invariant
                i <= self.raw_routes.len(),
                raw_routes.len() == i,
                forall|j: int|
                    0 <= j < i ==> (#[trigger] raw_routes[j]).0@ == self.raw_routes[j].0@
                        && raw_routes[j].1@ == self.raw_routes[j].1@,
            decreases self.raw_routes.len() - i,
        {
            raw_routes.push((self.raw_routes[i].0.clone(), self.raw_routes[i].1.clone()));
            i = i + 1;
        }
        let app = App {
            raw_routes,
            routes_tree: self.routes_tree.deep_copy(),
            handlers: HandlerCache::new(),
            python_app: None,
        };
        assert(app.registered() =~= self.registered());
        app
    }

    /// Sets the application object that handlers are invoked with.
    pub fn set_application(&mut self, application: H)
        requires
            old(self).wf(),
        ensures
            final(self).wf(),
            final(self).application() == Some(application),
            final(self).routes() == old(self).routes(),
            final(self).registered() == old(self).registered(),
            final(self).handlers() == old(self).handlers(),
    {
        self.python_app = Some(application);
    }

    /// The `(pattern, handler)` pairs registered so far, in order.
    pub fn raw_routes(&self) -> (routes: &Vec<(String, String)>)
        ensures
            pair_views(routes@) == self.registered(),
    {
        &self.raw_routes
    }

    /// The application object that handlers are invoked with, once set.
    pub fn application_object(&self) -> (r: Option<&H>)
        ensures
            match r {
                Some(a) => self.application() == Some(*a),
                None => self.application() is None,
            },
    {
        match &self.python_app {
            Some(a) => Some(a),
            None => None,
        }
    }

    /// What is to be done for a handler id: use the loaded handler, load it,
    /// or give up on an id that names no source location and symbol.
    pub fn find_handler(&self, handler_id: &str) -> (r: HandlerLookup<'_, H>)
        requires
            self.wf(),
        ensures
            match handler_key(handler_id@) {
                None => r is Malformed,
                Some(key) => if self.handlers().dom().contains(key) {
                    r matches HandlerLookup::Cached(h) && *h == self.handlers()[key]
                } else {
                    r matches HandlerLookup::Load { source_location, symbol_name } && (
                        source_location@,
                        symbol_name@,
                    ) == key
                },
            },
    {
        self.handlers.lookup(handler_id)
    }

    /// Keeps a handler that has been loaded. A handler that was kept for the
    /// same source location and symbol before stays.
    pub fn save_handler(&mut self, source_location: String, symbol_name: String, handler: H)
        requires
            old(self).wf(),
        ensures
            final(self).wf(),
            final(self).handlers() == if old(self).handlers().dom().contains(
                (source_location@, symbol_name@),
            ) {
                old(self).handlers()
            } else {
                old(self).handlers().insert((source_location@, symbol_name@), handler)
            },
            final(self).routes() == old(self).routes(),
            final(self).registered() == old(self).registered(),
            final(self).application() == old(self).application(),
    {
        self.handlers.insert(source_location, symbol_name, handler);
    }

    /// Reads a request and resolves its path. A text that is no request, and
    /// a path that matches no route, are answered with the empty response.
    /// Else the handler of the route is to be invoked on the request, which
    /// carries the variables of the path.
    pub fn process_request(&self, raw_request: String) -> (plan: RequestPlan)
        requires
            self.wf(),
        ensures
            match parse_error(raw_request@) {
                Some(_) => plan matches RequestPlan::Respond(text) && text@.len() == 0,
                None => {
                    let found = resolve(self.routes(), line_piece(raw_request@, 1));
                    match found.handler {
                        None => plan matches RequestPlan::Respond(text) && text@.len() == 0,
                        Some(id) => {
                            &&& plan matches RequestPlan::Invoke { request, handler_id }
                            &&& handler_id@ == id
                            &&& request.wf()
                            &&& request.read_from(raw_request@)
                            &&& request.path_variables matches Some(v)
                            &&& v@ == found.variables
                        },
                    }
                },
            },
    {
        let mut request = match Request::from_string(raw_request) {
            Ok(request) => request,
            Err(_) => {
                return RequestPlan::Respond(String::new());
            },
        };
        let (maybe_path, route_variables) = self.resolve_route(request.path.as_str());
        match maybe_path {
            Some(path) => {
                request.path_variables = Some(route_variables);
                RequestPlan::Invoke { request, handler_id: path }
            },
            None => RequestPlan::Respond(String::new()),
        }
    }

    /// Registers the routes in order. A later route wins over an earlier one
    /// that ends at the same node.
    pub fn register_routes(&mut self, raw_routes: Vec<(String, String)>)
        requires
            old(self).wf(),
        ensures
            final(self).wf(),
            final(self).routes() == register_all(old(self).routes(), pair_views(raw_routes@)),
            final(self).registered() == old(self).registered() + pair_views(raw_routes@),
            final(self).handlers() == old(self).handlers(),
            final(self).application() == old(self).application(),
    {
        self.load_route_tree(&raw_routes);
    }

    /// Inserts each route into the tree and appends it to the route list.
    fn load_route_tree(&mut self, raw_routes: &Vec<(String, String)>)
        requires
            old(self).wf(),
        ensures
            final(self).wf(),
            final(self).routes() == register_all(old(self).routes(), pair_views(raw_routes@)),
            final(self).registered() == old(self).registered() + pair_views(raw_routes@),
            final(self).handlers() == old(self).handlers(),
            final(self).application() == old(self).application(),
    {
        let ghost all = pair_views(raw_routes@);
        let mut i: usize = 0;
        assert(all.take(0) =~= Seq::<(Seq<char>, Seq<char>)>::empty());
        assert(self.registered() + all.take(0) =~= self.registered());
        while i < raw_routes.len()
            invariant
                i <= raw_routes.len(),
                all == pair_views(raw_routes@),
                self.wf(),
                self.routes() == register_all(old(self).routes(), all.take(i as int)),
                self.registered() == old(self).registered() + all.take(i as int),
                self.handlers() == old(self).handlers(),
                self.application() == old(self).application(),
            decreases raw_routes.len() - i,
        {
            let ghost listed = self.registered();
            let raw_route = &raw_routes[i].0;
            let raw_path = &raw_routes[i].1;
            if contains_char(raw_route.as_str(), '<') {
                let segments = Self::segments_of(raw_route.as_str());
                assert(views(segments@).skip(0) =~= views(segments@));
                self.routes_tree.recursive_insert(&segments, 0, raw_path.as_str());
            } else {
                self.routes_tree.insert_whole(raw_route.as_str(), raw_path.as_str());
            }
            self.raw_routes.push((raw_route.clone(), raw_path.clone()));
            proof {
                let next = all.take(i + 1);
                assert(next.drop_last() =~= all.take(i as int));
                assert(next.last() == all[i as int]);
                assert(self.registered() =~= listed.push(all[i as int]));
                assert(old(self).registered() + next =~= (old(self).registered() + all.take(
                    i as int,
                )).push(all[i as int]));
            }
            i = i + 1;
        }
        assert(all.take(raw_routes.len() as int) =~= all);
    }

    /// The segments of a parameterized pattern.
    fn segments_of(pattern: &str) -> (segments: Vec<String>)
        ensures
            views(segments@) == pattern_segments(pattern@),
    {
        let pieces = split_on(pattern, '/');
        let ghost all = views(pieces@);
        let ghost keep = |s: Seq<char>| s.len() > 0;
        proof {
            crate::text::lemma_split_pieces_lack_separator(pattern@, '/');
        }
        let mut segments: Vec<String> = Vec::new();
        let mut i: usize = 0;
        let last = pieces.len() - 1;
        proof {
            reveal(Seq::filter);
            assert(all.drop_last().take(0) =~= Seq::<Seq<char>>::empty());
            assert(views(segments@) =~= all.drop_last().take(0).filter(keep));
        }
        while i < last
            invariant
                i <= last,
                last == pieces.len() - 1,
                all == views(pieces@),
                keep == |s: Seq<char>| s.len() > 0,
                views(segments@) == all.drop_last().take(i as int).filter(keep),
            decreases last - i,
        {
            let ghost before = views(segments@);
            let piece = &pieces[i];
            proof {
                reveal(Seq::filter);
                let upto = all.drop_last().take(i + 1);
                assert(upto.drop_last() =~= all.drop_last().take(i as int));
                assert(upto.last() == piece@);
            }
            if !piece.as_str().is_empty() {
                segments.push(piece.clone());
                assert(views(segments@) =~= before.push(piece@));
            }
            i = i + 1;
        }
        let ghost before = views(segments@);
        assert(all.drop_last().take(last as int) =~= all.drop_last());
        segments.push(pieces[last].clone());
        assert(views(segments@) =~= before.push(all.last()));
        segments
    }

    /// The name that a parameter segment declares.
    fn parameter_name_of(segment: &String) -> (name: String)
        ensures
            name@ == parameter_name(segment@),
    {
        let v = chars_of(segment.as_str());
        if v.len() > 0 && v[0] == '<' {
            let end = if v.len() > 1 && v[v.len() - 1] == '>' {
                v.len() - 1
            } else {
                v.len()
            };
            let name = string_of(&v, 1, end);
            proof {
                let inner = v@.skip(1);
                assert(inner =~= v@.subrange(1, v.len() as int));
                if inner.len() > 0 && inner.last() == '>' {
                    assert(inner.drop_last() =~= v@.subrange(1, end as int));
                }
            }
            name
        } else {
            segment.clone()
        }
    }

    /// The variables that a query string defines.
    fn query_pairs(query: &str) -> (variables: StringMap)
        ensures
            variables.wf(),
            variables@ == query_variables(query@),
    {
        let pieces = split_on(query, '&');
        let ghost all = views(pieces@);
        let mut variables = StringMap::new();
        let mut i: usize = 0;
        assert(all.take(0) =~= Seq::<Seq<char>>::empty());
        while i < pieces.len()
            invariant
                i <= pieces.len(),
                all == views(pieces@),
                variables.wf(),
                variables@ == pairs_to_map(all.take(i as int)),
            decreases pieces.len() - i,
        {
            proof {
                let upto = all.take(i + 1);
                assert(upto.drop_last() =~= all.take(i as int));
                assert(upto.last() == pieces[i as int]@);
            }
            match split_once_on(pieces[i].as_str(), '=') {
                Some((key, value)) => {
                    variables.insert(key, value);
                },
                None => {},
            }
            i = i + 1;
        }
        assert(all.take(pieces.len() as int) =~= all);
        variables
    }

    /// The child of `node` that a path segment leads to: the child stored
    /// under the segment itself if there is one; else, where `fallback`
    /// allows it, the child stored under the parameter key.
    pub fn next_item_while_resolving<'a>(p: &String, node: &'a RouteNode, fallback: bool) -> (r: Option<
        &'a RouteNode,
    >)
        requires
            node.wf(),
        ensures
            match (r, edge_taken(node@, p@, fallback)) {
                (Some(c), Some(key)) => {
                    &&& c.entry() == node@[seq![key]]
                    &&& c@ == subtree(node@, seq![key])
                    &&& c.key() == key
                    &&& c.is_stored()
                    &&& c.wf()
                },
                (None, None) => true,
                _ => false,
            },
        decreases (if fallback { 1nat } else { 0nat }),
    {
        match node.child(p) {
            Some(children_node) => Some(children_node),
            None => {
                if fallback {
                    let p = "CUSTOM_PARAM".to_owned();
                    let r = Self::next_item_while_resolving(&p, node, false);
                    r
                } else {
                    None
                }
            },
        }
    }

    /// Resolves a request path to the handler of the route that it matches
    /// and to its variables.
    ///
    /// A path that is, as a whole, the key of a node below the root with a
    /// handler resolves to that handler, without variables. Any other path is
    /// cut at its first `?`; what follows is read as `&`-separated
    /// `key=value` pairs, what precedes is walked segment by segment. At each
    /// segment the child with that very key is taken, else the parameter
    /// child, which binds the name that it declares to the segment. A
    /// segment that has neither ends the walk: the path matches no route.
    pub fn resolve_route(&self, route: &str) -> (r: (Option<String>, StringMap))
        requires
            self.wf(),
        ensures
            opt_view(r.0) == resolve(self.routes(), route@).handler,
            r.1.wf(),
            r.1@ == resolve(self.routes(), route@).variables,
    {
        let ghost m = self.routes();
        let whole = route.to_owned();
        proof {
            self.routes_tree.lemma_paths_nonempty();
            lemma_subtree_root(m);
        }
        match self.routes_tree.child(&whole) {
            Some(node) => {
                match node.handler() {
                    Some(h) => {
                        return (Some(h.clone()), StringMap::new());
                    },
                    None => {},
                }
            },
            None => {},
        }
        assert(!is_direct(m, route@));
        let (route_text, query) = match split_once_on(route, '?') {
            Some((left, right)) => (left, right),
            None => (route.to_owned(), String::new()),
        };
        let mut path_variables = Self::query_pairs(query.as_str());
        let as_list = split_on(route_text.as_str(), '/');
        let custom = "CUSTOM_PARAM".to_owned();
        let ghost target = resolve(m, route@);
        let mut actual_node: &RouteNode = &self.routes_tree;
        let ghost mut at: Seq<Seq<char>> = Seq::empty();
        let mut i: usize = 1;
        proof {
            crate::text::lemma_split_pieces_lack_separator(route_text@, '/');
        }
        while i < as_list.len()
            invariant
                1 <= i <= as_list.len(),
                m == self.routes(),
                target == resolve(m, route@),
                custom@ == custom_param(),
                actual_node.wf(),
                actual_node@ == subtree(m, at),
                path_variables.wf(),
                walk(m, at, views(as_list@).skip(i as int), path_variables@) == target,
            decreases as_list.len() - i,
        {
            let p = &as_list[i];
            let ghost rest = views(as_list@).skip(i as int);
            assert(rest[0] == p@);
            proof {
                lemma_subtree_step(m, at, p@);
            }
            match Self::next_item_while_resolving(p, actual_node, true) {
                Some(child_node) => {
                    let ghost key = edge_taken(actual_node@, p@, true)->0;
                    proof {
                        lemma_subtree_step(m, at, key);
                    }
                    let is_parameter = match child_node.segment_path() {
                        Some(k) => *k == custom,
                        None => false,
                    };
                    if is_parameter {
                        match child_node.original_segment() {
                            Some(declared) => {
                                path_variables.insert(Self::parameter_name_of(declared), p.clone());
                            },
                            None => {},
                        }
                    }
                    if i == as_list.len() - 1 {
                        assert(rest.len() == 1);
                        let found = match child_node.handler() {
                            Some(h) => Some(h.clone()),
                            None => None,
                        };
                        return (found, path_variables);
                    }
                    actual_node = child_node;
                    proof {
                        at = at.push(key);
                        assert(rest.skip(1) =~= views(as_list@).skip(i + 1));
                    }
                },
                None => {
                    return (None, path_variables);
                },
            }
            i = i + 1;
        }
        (None, path_variables)
    }
}

} // verus!
