//! The route tree: nodes that own their children, one child per edge key.

use crate::route_model::{
    edge_key, insert_literal, insert_route, lemma_on_route_first, lemma_on_route_rest, on_route,
    subtree, RouteEntry, RouteMap,
};
use crate::text::{opt_view, starts_with_char, views};
use vstd::prelude::*;

verus! {

/// One node of the route tree. The root stands for the empty path; every
/// other node stands for one segment and is stored by its parent under the
/// segment's edge key.
#[derive(Debug)]
pub struct RouteNode {
    path: Option<String>,
    original_path: Option<String>,
    handler: Option<String>,
    childrens: Vec<RouteNode>,
}

impl View for RouteNode {
    type V = RouteMap;

    /// The key paths that lead from this node to the nodes below it, each
    /// with what the node that it reaches stores.
    closed spec fn view(&self) -> RouteMap {
        Map::new(
            |p: Seq<Seq<char>>| p.len() > 0 && self.descend(p) is Some,
            |p: Seq<Seq<char>>| self.descend(p)->0.entry(),
        )
    }
}

impl RouteNode {
    /// The edge key that the node is stored under; empty for a root.
    pub closed spec fn key(&self) -> Seq<char> {
        match self.path {
            Some(s) => s@,
            None => Seq::empty(),
        }
    }

    /// What the node stores besides its children.
    pub closed spec fn entry(&self) -> RouteEntry {
        RouteEntry {
            original: match self.original_path {
                Some(s) => s@,
                None => Seq::empty(),
            },
            handler: opt_view(self.handler),
        }
    }

    /// Whether the node knows its key and segment text, as every node but a
    /// root does.
    pub closed spec fn is_stored(&self) -> bool {
        self.path is Some && self.original_path is Some
    }

    /// Whether the node knows neither a key nor a segment text, as a root
    /// does.
    pub closed spec fn is_root(&self) -> bool {
        self.path is None && self.original_path is None
    }

    /// Whether the node has no child.
    pub closed spec fn is_leaf(&self) -> bool {
        self.childrens.len() == 0
    }

    /// The representation invariant: every node below this one knows the key
    /// that it is stored under and the segment text that it came from, and no
    /// two children of one node share a key.
    pub closed spec fn wf(&self) -> bool
        decreases self,
    {
        &&& forall|i: int|
            0 <= i < self.childrens.len() ==> {
                &&& (#[trigger] self.childrens[i]).path is Some
                &&& self.childrens[i].original_path is Some
                &&& self.childrens[i].wf()
            }
        &&& forall|i: int, j: int|
            0 <= i < j < self.childrens.len() ==> (#[trigger] self.childrens[i]).key()
                != (#[trigger] self.childrens[j]).key()
    }

    /// Position of the child stored under `key`.
    spec fn child_index(&self, key: Seq<char>) -> Option<int> {
        if exists|i: int| 0 <= i < self.childrens.len() && (#[trigger] self.childrens[i]).key() == key {
            Some(
                choose|i: int|
                    0 <= i < self.childrens.len() && (#[trigger] self.childrens[i]).key() == key,
            )
        } else {
            None
        }
    }

    /// The node that the key path `p` leads to from here.
    spec fn descend(&self, p: Seq<Seq<char>>) -> Option<RouteNode>
        decreases p.len(),
    {
        if p.len() == 0 {
            Some(*self)
        } else {
            match self.child_index(p[0]) {
                Some(i) => self.childrens[i].descend(p.skip(1)),
                None => None,
            }
        }
    }

    proof fn lemma_child_at(&self, i: int)
        requires
            self.wf(),
            0 <= i < self.childrens.len(),
        ensures
            self.child_index(self.childrens[i].key()) == Some(i),
    {
        let k = self.childrens[i].key();
        let j = choose|j: int| 0 <= j < self.childrens.len() && (#[trigger] self.childrens[j]).key() == k;
        assert(j == i);
    }

    proof fn lemma_child_index(&self, key: Seq<char>)
        ensures
            match self.child_index(key) {
                Some(i) => 0 <= i < self.childrens.len() && self.childrens[i].key() == key,
                None => forall|i: int|
                    0 <= i < self.childrens.len() ==> (#[trigger] self.childrens[i]).key() != key,
            },
    {
    }

    proof fn lemma_descend_one(&self, key: Seq<char>)
        ensures
            self.descend(seq![key]) == match self.child_index(key) {
                Some(i) => Some(self.childrens[i]),
                None => None,
            },
    {
        let p = seq![key];
        assert(p.skip(1).len() == 0);
        match self.child_index(key) {
            Some(i) => {
                assert(self.childrens[i].descend(p.skip(1)) == Some(self.childrens[i]));
            },
            None => {},
        }
    }

    proof fn lemma_view_of_children(&self, other: RouteNode)
        requires
            self.childrens@ == other.childrens@,
        ensures
            self@ == other@,
    {
        assert forall|p: Seq<Seq<char>>| p.len() > 0 implies self.descend(p) == other.descend(p) by {
            assert(self.child_index(p[0]) == other.child_index(p[0]));
        }
        assert(self@ =~= other@);
    }

    proof fn lemma_view_of_leaf(&self)
        requires
            self.is_leaf(),
        ensures
            self@ == Map::<Seq<Seq<char>>, RouteEntry>::empty(),
    {
        assert forall|p: Seq<Seq<char>>| !(#[trigger] self@.dom().contains(p)) by {
            if p.len() > 0 {
                self.lemma_child_index(p[0]);
            }
        }
        assert(self@ =~= Map::<Seq<Seq<char>>, RouteEntry>::empty());
    }

    /// Whether `after` is `self` with the child at `idx` replaced or, for
    /// `idx` one past the end, added; the child is stored under `key`.
    spec fn differs_at(&self, after: RouteNode, idx: int, key: Seq<char>) -> bool {
        &&& self.wf()
        &&& after.childrens[idx].is_stored()
        &&& after.childrens[idx].wf()
        &&& 0 <= idx <= self.childrens.len()
        &&& idx < self.childrens.len() ==> after.childrens.len() == self.childrens.len()
        &&& idx == self.childrens.len() ==> after.childrens.len() == self.childrens.len() + 1
        &&& forall|j: int|
            0 <= j < self.childrens.len() && j != idx ==> (#[trigger] after.childrens[j])
                == self.childrens[j]
        &&& after.childrens[idx].key() == key
        &&& idx < self.childrens.len() ==> self.childrens[idx].key() == key
        &&& idx == self.childrens.len() ==> self.child_index(key) is None
    }

    proof fn lemma_wf_of_children(&self, other: RouteNode)
        requires
            self.childrens@ == other.childrens@,
        ensures
            self.wf() == other.wf(),
    {
    }

    proof fn lemma_differs_wf(&self, after: RouteNode, idx: int, key: Seq<char>)
        requires
            self.differs_at(after, idx, key),
        ensures
            after.wf(),
    {
        self.lemma_child_index(key);
        assert forall|i: int| 0 <= i < after.childrens.len() implies {
            &&& (#[trigger] after.childrens[i]).path is Some
            &&& after.childrens[i].original_path is Some
            &&& after.childrens[i].wf()
        } by {
            if i != idx {
                assert(after.childrens[i] == self.childrens[i]);
            }
        }
        assert forall|i: int, j: int| 0 <= i < j < after.childrens.len() implies (
        #[trigger] after.childrens[i]).key() != (#[trigger] after.childrens[j]).key() by {
            if i != idx {
                assert(after.childrens[i] == self.childrens[i]);
            }
            if j != idx {
                assert(after.childrens[j] == self.childrens[j]);
            }
            if idx < self.childrens.len() {
                assert(self.childrens[idx].key() == key);
            }
        }
    }

    proof fn lemma_differs_elsewhere(&self, after: RouteNode, idx: int, key: Seq<char>, p: Seq<Seq<char>>)
        requires
            self.differs_at(after, idx, key),
            p.len() > 0,
            p[0] != key,
        ensures
            after.descend(p) == self.descend(p),
    {
        self.lemma_differs_wf(after, idx, key);
        self.lemma_child_index(p[0]);
        after.lemma_child_index(p[0]);
        match self.child_index(p[0]) {
            Some(j) => {
                assert(after.childrens[j] == self.childrens[j]);
                after.lemma_child_at(j);
            },
            None => {
                if let Some(j) = after.child_index(p[0]) {
                    assert(after.childrens[j] == self.childrens[j]);
                }
            },
        }
    }

    proof fn lemma_differs_below(&self, after: RouteNode, idx: int, key: Seq<char>, p: Seq<Seq<char>>)
        requires
            self.differs_at(after, idx, key),
            p.len() > 0,
            p[0] == key,
        ensures
            after.descend(p) == after.childrens[idx].descend(p.skip(1)),
            self.descend(p) == if idx < self.childrens.len() {
                self.childrens[idx].descend(p.skip(1))
            } else {
                None
            },
    {
        self.lemma_differs_wf(after, idx, key);
        after.lemma_child_at(idx);
        if idx < self.childrens.len() {
            self.lemma_child_at(idx);
        }
    }

    /// What the map of a node becomes when the route along `ks` has been
    /// inserted below the child at `idx`.
    proof fn lemma_insert_step(&self, after: RouteNode, idx: int, ks: Seq<Seq<char>>, h: Seq<char>)
        requires
            ks.len() >= 1,
            self.differs_at(after, idx, edge_key(ks[0])),
            after.childrens[idx].entry().original == ks[0],
            ks.len() == 1 ==> after.childrens[idx].entry().handler == Some(h),
            ks.len() > 1 ==> after.childrens[idx].entry().handler == if idx < self.childrens.len() {
                self.childrens[idx].entry().handler
            } else {
                None
            },
            after.childrens[idx]@ == ({
                let below = if idx < self.childrens.len() {
                    self.childrens[idx]@
                } else {
                    Map::<Seq<Seq<char>>, RouteEntry>::empty()
                };
                if ks.len() == 1 {
                    below
                } else {
                    insert_route(below, ks.skip(1), h)
                }
            }),
        ensures
            after@ == insert_route(self@, ks, h),
    {
        let key = edge_key(ks[0]);
        let goal = insert_route(self@, ks, h);
        let child = after.childrens[idx];
        let existed = idx < self.childrens.len();
        assert forall|p: Seq<Seq<char>>| after@.dom().contains(p) <==> goal.dom().contains(p) by {
            if p.len() > 0 {
                lemma_on_route_first(p, ks);
                if p[0] != key {
                    self.lemma_differs_elsewhere(after, idx, key, p);
                } else {
                    self.lemma_differs_below(after, idx, key, p);
                    let q = p.skip(1);
                    if q.len() > 0 {
                        lemma_on_route_rest(p, ks);
                        assert(child@.dom().contains(q) <==> child.descend(q) is Some);
                        if existed {
                            assert(self.childrens[idx]@.dom().contains(q) <==> self.childrens[idx].descend(
                                q,
                            ) is Some);
                        }
                    }
                }
            }
        }
        assert forall|p: Seq<Seq<char>>| after@.dom().contains(p) implies after@[p] == goal[p] by {
            lemma_on_route_first(p, ks);
            if p[0] != key {
                self.lemma_differs_elsewhere(after, idx, key, p);
            } else {
                self.lemma_differs_below(after, idx, key, p);
                let q = p.skip(1);
                if q.len() > 0 {
                    lemma_on_route_rest(p, ks);
                    assert(child@.dom().contains(q));
                    assert(child@[q] == child.descend(q)->0.entry());
                    if existed {
                        assert(self.childrens[idx]@.dom().contains(q) <==> self.childrens[idx].descend(
                            q,
                        ) is Some);
                        if self.childrens[idx]@.dom().contains(q) {
                            assert(self.childrens[idx]@[q] == self.childrens[idx].descend(q)->0.entry());
                        }
                    }
                    if on_route(q, ks.skip(1)) {
                        assert(ks.skip(1)[q.len() - 1] == ks[p.len() - 1]);
                    }
                }
            }
        }
        assert(after@ =~= goal);
    }

    /// A node without path, segment text, handler or children: an empty root.
    pub fn default() -> (node: Self)
        ensures
            node.wf(),
            node.is_root(),
            !node.is_stored(),
            node.is_leaf(),
            node.key() == Seq::<char>::empty(),
            node@ == Map::<Seq<Seq<char>>, RouteEntry>::empty(),
            node.entry() == (RouteEntry { original: Seq::empty(), handler: None }),
    {
        let node = RouteNode { path: None, original_path: None, handler: None, childrens: Vec::new() };
        proof {
            assert forall|p: Seq<Seq<char>>| !(#[trigger] node@.dom().contains(p)) by {
                if p.len() > 0 {
                    node.lemma_child_index(p[0]);
                }
            }
            assert(node@ =~= Map::<Seq<Seq<char>>, RouteEntry>::empty());
        }
        node
    }

    /// Position of the child stored under `key`, if there is one.
    fn find_child(&self, key: &String) -> (r: Option<usize>)
        requires
            self.wf(),
        ensures
            match r {
                Some(i) => self.child_index(key@) == Some(i as int) && i < self.childrens.len(),
                None => self.child_index(key@) is None,
            },
    {
        let mut i: usize = 0;
        while i < self.childrens.len()
            invariant
                i <= self.childrens.len(),
                self.wf(),
                forall|j: int| 0 <= j < i ==> (#[trigger] self.childrens[j]).key() != key@,
            decreases self.childrens.len() - i,
        {
            let same = match &self.childrens[i].path {
                Some(p) => *p == *key,
                None => false,
            };
            if same {
                proof {
                    self.lemma_child_at(i as int);
                }
                return Some(i);
            }
            i = i + 1;
        }
        None
    }

    /// Every path of the node's map has at least one key.
    pub proof fn lemma_paths_nonempty(&self)
        ensures
            forall|p: Seq<Seq<char>>| self@.dom().contains(p) ==> p.len() > 0,
    {
    }

    /// The child stored under `key`, if there is one.
    pub fn child(&self, key: &String) -> (r: Option<&RouteNode>)
        requires
            self.wf(),
        ensures
            match r {
                Some(c) => {
                    &&& self@.dom().contains(seq![key@])
                    &&& c.entry() == self@[seq![key@]]
                    &&& c@ == subtree(self@, seq![key@])
                    &&& c.key() == key@
                    &&& c.is_stored()
                    &&& c.wf()
                },
                None => !self@.dom().contains(seq![key@]),
            },
    {
        proof {
            self.lemma_descend_one(key@);
        }
        match self.find_child(key) {
            Some(i) => {
                let c = &self.childrens[i];
                proof {
                    assert forall|q: Seq<Seq<char>>| q.len() > 0 implies self.descend(seq![key@] + q)
                        == c.descend(q) by {
                        let p = seq![key@] + q;
                        assert(p[0] == key@);
                        assert(p.skip(1) =~= q);
                    }
                    assert(c@ =~= subtree(self@, seq![key@]));
                }
                Some(c)
            },
            None => None,
        }
    }

    /// The handler stored at the node.
    pub fn handler(&self) -> (h: Option<&String>)
        ensures
            match h {
                Some(s) => self.entry().handler == Some(s@),
                None => self.entry().handler is None,
            },
    {
        match &self.handler {
            Some(s) => Some(s),
            None => None,
        }
    }

    /// The segment text stored at the node; `None` at a root.
    pub fn original_segment(&self) -> (o: Option<&String>)
        ensures
            match o {
                Some(s) => self.entry().original == s@,
                None => !self.is_stored(),
            },
    {
        match &self.original_path {
            Some(s) => Some(s),
            None => None,
        }
    }

    /// The key that the node is stored under; `None` at a root.
    pub fn segment_path(&self) -> (o: Option<&String>)
        ensures
            match o {
                Some(s) => self.key() == s@,
                None => !self.is_stored(),
            },
    {
        match &self.path {
            Some(s) => Some(s),
            None => None,
        }
    }

    /// Whether `other` has the same texts as this node, and its children, in
    /// the same order, those of this node's children.
    pub closed spec fn same_tree(&self, other: RouteNode) -> bool
        decreases self,
    {
        &&& opt_view(self.path) == opt_view(other.path)
        &&& opt_view(self.original_path) == opt_view(other.original_path)
        &&& opt_view(self.handler) == opt_view(other.handler)
        &&& self.childrens.len() == other.childrens.len()
        &&& forall|i: int|
            0 <= i < self.childrens.len() ==> (#[trigger] self.childrens[i]).same_tree(other.childrens[i])
    }

    /// A node with the same texts and children stands for the same map.
    pub proof fn lemma_same_tree(&self, other: RouteNode)
        requires
            self.same_tree(other),
            self.wf(),
        ensures
            other.wf(),
            other.key() == self.key(),
            other.entry() == self.entry(),
            other.is_stored() == self.is_stored(),
            other@ == self@,
        decreases self,
    {
        assert forall|i: int| 0 <= i < self.childrens.len() implies {
            &&& (#[trigger] other.childrens[i]).wf()
            &&& other.childrens[i].key() == self.childrens[i].key()
            &&& other.childrens[i].entry() == self.childrens[i].entry()
            &&& other.childrens[i].is_stored()
            &&& other.childrens[i]@ == self.childrens[i]@
        } by {
            assert(self.childrens[i].same_tree(other.childrens[i]));
            assert(self.childrens[i].wf());
            self.childrens[i].lemma_same_tree(other.childrens[i]);
        }
        assert(other.wf()) by {
            assert forall|i: int, j: int| 0 <= i < j < other.childrens.len() implies (
            #[trigger] other.childrens[i]).key() != (#[trigger] other.childrens[j]).key() by {
                assert(self.childrens[i].key() != self.childrens[j].key());
            }
        }
        assert forall|p: Seq<Seq<char>>| p.len() > 0 implies (self.descend(p) is Some
            <==> other.descend(p) is Some) && (self.descend(p) is Some ==> self.descend(p)->0.entry()
            == other.descend(p)->0.entry()) by {
            self.lemma_child_index(p[0]);
            other.lemma_child_index(p[0]);
            let q = p.skip(1);
            match self.child_index(p[0]) {
                Some(i) => {
                    assert(other.childrens[i].key() == p[0]);
                    other.lemma_child_at(i);
                    if q.len() > 0 {
                        assert(self.childrens[i]@.dom().contains(q) <==> self.childrens[i].descend(q) is Some);
                        assert(other.childrens[i]@.dom().contains(q) <==> other.childrens[i].descend(q) is Some);
                        if self.childrens[i].descend(q) is Some {
                            assert(self.childrens[i]@[q] == self.childrens[i].descend(q)->0.entry());
                            assert(other.childrens[i]@[q] == other.childrens[i].descend(q)->0.entry());
                        }
                    }
                },
                None => {
                    if let Some(j) = other.child_index(p[0]) {
                        assert(self.childrens[j].key() == p[0]);
                    }
                },
            }
        }
        assert(other@ =~= self@);
    }

    /// A copy of the node and of everything below it.
    pub fn deep_copy(&self) -> (copy: RouteNode)
        requires
            self.wf(),
        ensures
            self.same_tree(copy),
            copy.wf(),
            copy@ == self@,
            copy.key() == self.key(),
            copy.entry() == self.entry(),
            copy.is_stored() == self.is_stored(),
        decreases self,
    {
        let mut childrens: Vec<RouteNode> = Vec::new();
        let mut i: usize = 0;
        while i < self.childrens.len()
            invariant
                i <= self.childrens.len(),
                childrens.len() == i,
                self.wf(),
                forall|j: int| 0 <= j < i ==> (#[trigger] self.childrens[j]).same_tree(childrens[j]),
            decreases self.childrens.len() - i,
        {
            let child = self.childrens[i].deep_copy();
            childrens.push(child);
            i = i + 1;
        }
        let copy = RouteNode {
            path: match &self.path {
                Some(s) => Some(s.clone()),
                None => None,
            },
            original_path: match &self.original_path {
                Some(s) => Some(s.clone()),
                None => None,
            },
            handler: match &self.handler {
                Some(s) => Some(s.clone()),
                None => None,
            },
            childrens,
        };
        proof {
            self.lemma_same_tree(copy);
        }
        copy
    }

    /// The edge key of a pattern segment: the reserved key for a parameter
    /// segment, the segment itself otherwise.
    fn key_for(segment: &String) -> (key: String)
        ensures
            key@ == edge_key(segment@),
    {
        if starts_with_char(segment.as_str(), '<') {
            "CUSTOM_PARAM".to_owned()
        } else {
            segment.clone()
        }
    }

    /// Inserts the route along `segments[from..]` below this node: walks one
    /// segment down, creating the child if there is none, and sets the
    /// handler at the last segment.
    pub fn recursive_insert(&mut self, segments: &Vec<String>, from: usize, handler: &str)
        requires
            old(self).wf(),
            from < segments.len(),
        ensures
            final(self).wf(),
            final(self)@ == insert_route(old(self)@, views(segments@).skip(from as int), handler@),
            final(self).key() == old(self).key(),
            final(self).entry() == old(self).entry(),
            final(self).is_stored() == old(self).is_stored(),
        decreases segments.len() - from,
    {
        let ghost before = *self;
        let ghost ks = views(segments@).skip(from as int);
        let segment = &segments[from];
        assert(ks[0] == segment@);
        let key = Self::key_for(segment);
        let idx = match self.find_child(&key) {
            Some(i) => i,
            None => {
                let fresh = RouteNode {
                    path: Some(key),
                    original_path: Some(segment.clone()),
                    handler: None,
                    childrens: Vec::new(),
                };
                proof {
                    fresh.lemma_view_of_leaf();
                    before.lemma_child_index(edge_key(ks[0]));
                }
                self.childrens.push(fresh);
                self.childrens.len() - 1
            },
        };
        let ghost found = *self;
        let ghost below = found.childrens[idx as int];
        assert(idx < before.childrens.len() ==> below == before.childrens[idx as int]);
        self.childrens[idx].original_path = Some(segment.clone());
        if from + 1 == segments.len() {
            self.childrens[idx].handler = Some(handler.to_owned());
            proof {
                self.childrens[idx as int].lemma_view_of_children(below);
                self.childrens[idx as int].lemma_wf_of_children(below);
            }
        } else {
            let ghost renamed = self.childrens[idx as int];
            proof {
                renamed.lemma_view_of_children(below);
                renamed.lemma_wf_of_children(below);
            }
            let child = &mut self.childrens[idx];
            child.recursive_insert(segments, from + 1, handler);
            assert(views(segments@).skip(from + 1) == ks.skip(1));
        }
        proof {
            before.lemma_differs_wf(*self, idx as int, edge_key(ks[0]));
            before.lemma_insert_step(*self, idx as int, ks, handler@);
        }
    }

    /// Stores a fresh node with handler `handler` under the whole of
    /// `pattern`, in place of the child that was stored under it, if any.
    pub fn insert_whole(&mut self, pattern: &str, handler: &str)
        requires
            old(self).wf(),
        ensures
            final(self).wf(),
            final(self)@ == insert_literal(old(self)@, pattern@, handler@),
            final(self).key() == old(self).key(),
            final(self).entry() == old(self).entry(),
    {
        let ghost before = *self;
        let key = pattern.to_owned();
        let fresh = RouteNode {
            path: Some(pattern.to_owned()),
            original_path: Some(pattern.to_owned()),
            handler: Some(handler.to_owned()),
            childrens: Vec::new(),
        };
        let idx = match self.find_child(&key) {
            Some(i) => {
                self.childrens[i] = fresh;
                i
            },
            None => {
                proof {
                    before.lemma_child_index(pattern@);
                }
                self.childrens.push(fresh);
                self.childrens.len() - 1
            },
        };
        proof {
            before.lemma_differs_wf(*self, idx as int, pattern@);
            before.lemma_insert_whole(*self, idx as int, pattern@, handler@);
        }
    }

    proof fn lemma_insert_whole(&self, after: RouteNode, idx: int, pattern: Seq<char>, h: Seq<char>)
        requires
            self.differs_at(after, idx, pattern),
            after.childrens[idx].is_leaf(),
            after.childrens[idx].entry() == (RouteEntry { original: pattern, handler: Some(h) }),
        ensures
            after@ == insert_literal(self@, pattern, h),
    {
        let goal = insert_literal(self@, pattern, h);
        let child = after.childrens[idx];
        assert forall|p: Seq<Seq<char>>| after@.dom().contains(p) <==> goal.dom().contains(p) by {
            if p.len() > 0 {
                if p[0] != pattern {
                    self.lemma_differs_elsewhere(after, idx, pattern, p);
                } else {
                    self.lemma_differs_below(after, idx, pattern, p);
                    let q = p.skip(1);
                    if q.len() > 0 {
                        child.lemma_child_index(q[0]);
                    } else {
                        assert(p =~= seq![pattern]);
                    }
                }
            }
        }
        assert forall|p: Seq<Seq<char>>| after@.dom().contains(p) implies after@[p] == goal[p] by {
            if p[0] != pattern {
                self.lemma_differs_elsewhere(after, idx, pattern, p);
            } else {
                self.lemma_differs_below(after, idx, pattern, p);
                let q = p.skip(1);
                if q.len() > 0 {
                    child.lemma_child_index(q[0]);
                } else {
                    assert(p =~= seq![pattern]);
                }
            }
        }
        assert(after@ =~= goal);
    }
}

} // verus!
