//! The handler cache of a worker context.
//!
//! A handler id has the form `source-location::symbol-name`. The cache maps
//! the pair to the loaded handler. It only grows: the first handler stored
//! for a pair stays.

use crate::assoc::{
    assoc_distinct, assoc_has, assoc_map, lemma_assoc_at, lemma_assoc_len, lemma_assoc_push,
};
use crate::text::{chars_of, find_match, first_match, has_match, string_of};
use vstd::prelude::*;

verus! {

/// The text that parts a source location from a symbol name.
pub open spec fn scope_mark() -> Seq<char> {
    seq![':', ':']
}

/// The `(source location, symbol name)` pair of a handler id: what stands
/// before its first `::` and what stands after it. `None` for an id without
/// `::`.
pub open spec fn handler_key(id: Seq<char>) -> Option<(Seq<char>, Seq<char>)> {
    let i = first_match(id, scope_mark());
    if has_match(id, scope_mark()) {
        Some((id.take(i), id.skip(i + 2)))
    } else {
        None
    }
}

/// Splits a handler id into its source location and its symbol name.
pub fn split_handler_id(id: &str) -> (r: Option<(String, String)>)
    ensures
        match r {
            Some((source_location, symbol_name)) => handler_key(id@) == Some(
                (source_location@, symbol_name@),
            ),
            None => handler_key(id@) is None,
        },
{
    let v = chars_of(id);
    let mut mark: Vec<char> = Vec::new();
    mark.push(':');
    mark.push(':');
    assert(mark@ =~= scope_mark());
    assert(v@.skip(0) =~= v@);
    let i = find_match(&v, 0, &mark);
    if i < v.len() {
        let source_location = string_of(&v, 0, i);
        let symbol_name = string_of(&v, i + 2, v.len());
        Some((source_location, symbol_name))
    } else {
        None
    }
}

/// Number of times that the handler `key` is loaded when the handlers
/// `requests` are asked for in order, starting with the handlers `loaded` in
/// the cache: a request loads its handler if the cache does not hold it, and
/// the cache holds it from then on.
pub open spec fn loads_of(
    loaded: Set<(Seq<char>, Seq<char>)>,
    requests: Seq<(Seq<char>, Seq<char>)>,
    key: (Seq<char>, Seq<char>),
) -> nat
    decreases requests.len(),
{
    if requests.len() == 0 {
        0
    } else {
        let first = requests[0];
        let here: nat = if first == key && !loaded.contains(first) {
            1
        } else {
            0
        };
        here + loads_of(loaded.insert(first), requests.skip(1), key)
    }
}

/// A handler is loaded once, at its first use, however often it is asked
/// for; one that the cache holds already is never loaded.
pub proof fn law_one_load_per_handler(
    loaded: Set<(Seq<char>, Seq<char>)>,
    requests: Seq<(Seq<char>, Seq<char>)>,
    key: (Seq<char>, Seq<char>),
)
    ensures
        loads_of(loaded, requests, key) == if !loaded.contains(key) && requests.contains(key) {
            1nat
        } else {
            0nat
        },
    decreases requests.len(),
{
    if requests.len() > 0 {
        let first = requests[0];
        let rest = requests.skip(1);
        law_one_load_per_handler(loaded.insert(first), rest, key);
        if first == key {
            assert(requests.contains(key));
        } else {
            if rest.contains(key) {
                let j = choose|j: int| 0 <= j < rest.len() && rest[j] == key;
                assert(requests[j + 1] == key);
            }
            if requests.contains(key) {
                let j = choose|j: int| 0 <= j < requests.len() && requests[j] == key;
                assert(rest[j - 1] == key);
            }
        }
    }
}

/// One loaded handler with the pair that it was loaded for.
pub struct CachedHandler<H> {
    source_location: String,
    symbol_name: String,
    handler: H,
}

/// The loaded handlers of one worker context.
pub struct HandlerCache<H> {
    entries: Vec<CachedHandler<H>>,
}

/// What the cache says of a handler id.
pub enum HandlerLookup<'a, H> {
    /// The handler is loaded.
    Cached(&'a H),
    /// The handler has to be loaded from `source_location`, where it goes by
    /// the name `symbol_name`.
    Load { source_location: String, symbol_name: String },
    /// The id does not name a source location and a symbol.
    Malformed,
}

impl<H> View for HandlerCache<H> {
    type V = Map<(Seq<char>, Seq<char>), H>;

    closed spec fn view(&self) -> Map<(Seq<char>, Seq<char>), H> {
        assoc_map(self.pairs())
    }
}

impl<H> HandlerCache<H> {
    /// The entries as pairs of key and handler, in storage order.
    pub closed spec fn pairs(&self) -> Seq<((Seq<char>, Seq<char>), H)> {
        Seq::new(
            self.entries@.len(),
            |i: int|
                (
                    (self.entries@[i].source_location@, self.entries@[i].symbol_name@),
                    self.entries@[i].handler,
                ),
        )
    }

    /// The representation invariant: no pair is stored twice.
    pub closed spec fn wf(&self) -> bool {
        assoc_distinct(self.pairs())
    }

    /// The empty cache.
    pub fn new() -> (cache: Self)
        ensures
            cache.wf(),
            cache@ == Map::<(Seq<char>, Seq<char>), H>::empty(),
    {
        let cache = HandlerCache { entries: Vec::new() };
        assert(cache@ =~= Map::<(Seq<char>, Seq<char>), H>::empty());
        cache
    }

    /// Position of the entry for the pair, if there is one.
    fn position(&self, source_location: &String, symbol_name: &String) -> (r: Option<usize>)
        requires
            self.wf(),
        ensures
            match r {
                Some(i) => i < self.entries.len() && self.pairs()[i as int].0 == (
                    source_location@,
                    symbol_name@,
                ),
                None => !assoc_has(self.pairs(), (source_location@, symbol_name@)),
            },
    {
        let mut i: usize = 0;
        while i < self.entries.len()
            invariant
                i <= self.entries.len(),
                forall|j: int|
                    0 <= j < i ==> (#[trigger] self.pairs()[j]).0 != (source_location@, symbol_name@),
            decreases self.entries.len() - i,
        {
            if self.entries[i].source_location == *source_location && self.entries[i].symbol_name
                == *symbol_name {
                return Some(i);
            }
            assert(self.pairs()[i as int].0 == (
                self.entries[i as int].source_location@,
                self.entries[i as int].symbol_name@,
            ));
            i = i + 1;
        }
        None
    }

    /// Number of loaded handlers.
    pub fn len(&self) -> (n: usize)
        requires
            self.wf(),
        ensures
            self@.dom().finite(),
            n == self@.dom().len(),
    {
        proof {
            lemma_assoc_len(self.pairs());
        }
        self.entries.len()
    }

    /// The handler loaded for the pair.
    pub fn get(&self, source_location: &String, symbol_name: &String) -> (r: Option<&H>)
        requires
            self.wf(),
        ensures
            match r {
                Some(h) => self@.dom().contains((source_location@, symbol_name@)) && *h == self@[(
                    source_location@,
                    symbol_name@,
                )],
                None => !self@.dom().contains((source_location@, symbol_name@)),
            },
    {
        match self.position(source_location, symbol_name) {
            Some(i) => {
                proof {
                    lemma_assoc_at(self.pairs(), i as int);
                }
                Some(&self.entries[i].handler)
            },
            None => None,
        }
    }

    /// Stores `handler` for the pair, unless a handler is stored for it
    /// already: the first one stays.
    pub fn insert(&mut self, source_location: String, symbol_name: String, handler: H)
        requires
            old(self).wf(),
        ensures
            final(self).wf(),
            final(self)@ == if old(self)@.dom().contains((source_location@, symbol_name@)) {
                old(self)@
            } else {
                old(self)@.insert((source_location@, symbol_name@), handler)
            },
    {
        let ghost before = self.pairs();
        match self.position(&source_location, &symbol_name) {
            Some(i) => {
                proof {
                    lemma_assoc_at(before, i as int);
                }
            },
            None => {
                proof {
                    lemma_assoc_push(before, (source_location@, symbol_name@), handler);
                }
                self.entries.push(CachedHandler { source_location, symbol_name, handler });
                assert(self.pairs() =~= before.push(((source_location@, symbol_name@), handler)));
            },
        }
    }

    /// What is to be done for a handler id: use the loaded handler, load it,
    /// or give up on an id that names no source location and symbol.
    pub fn lookup(&self, handler_id: &str) -> (r: HandlerLookup<'_, H>)
        requires
            self.wf(),
        ensures
            match handler_key(handler_id@) {
                None => r is Malformed,
                Some(key) => if self@.dom().contains(key) {
                    r matches HandlerLookup::Cached(h) && *h == self@[key]
                } else {
                    r matches HandlerLookup::Load { source_location, symbol_name } && (
                        source_location@,
                        symbol_name@,
                    ) == key
                },
            },
    {
        match split_handler_id(handler_id) {
            None => HandlerLookup::Malformed,
            Some((source_location, symbol_name)) => {
                match self.get(&source_location, &symbol_name) {
                    Some(h) => HandlerLookup::Cached(h),
                    None => HandlerLookup::Load { source_location, symbol_name },
                }
            },
        }
    }
}

} // verus!
