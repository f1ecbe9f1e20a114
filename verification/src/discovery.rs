//! Route declarations in handler source text.
//!
//! A route is declared by a marker comment that holds the route pattern,
//! followed by the definition of the function that handles it:
//!
//! ```text
//! #->r /users/<id>
//! def show_user(app, request):
//! ```
//!
//! The caller reads the lines of a source file; this module finds the routes
//! in them.

use crate::app::pair_views;
use crate::handler_cache::scope_mark;
use crate::text::{
    chars_of, find_from, find_match, first_index, first_match, has_match, lemma_first_index_bounds,
    split_once, split_once_on, string_of, trim, trimmed, views,
};
use vstd::prelude::*;
use vstd::string::StringExecFns;

verus! {

/// Why the lines of a source file were rejected.
#[derive(Debug, Clone, Copy, PartialEq, Eq, Structural)]
pub enum ScanError {
    /// A line with the route marker holds no `/`.
    MarkerWithoutRoute,
    /// The line after a route marker holds no `def`.
    MissingDefinition,
    /// The definition after a route marker holds no `(`.
    MissingParameterList,
}

/// What has been found in the lines read so far.
pub struct ScanState {
    /// The routes, each with the id of its handler.
    pub routes: Seq<(Seq<char>, Seq<char>)>,
    /// The pattern of a marker whose definition has not been seen yet.
    pub pending: Option<Seq<char>>,
}

/// The marker of a route declaration.
pub open spec fn route_marker() -> Seq<char> {
    seq!['#', '-', '>', 'r']
}

/// The word that begins a function definition.
pub open spec fn definition_word() -> Seq<char> {
    seq!['d', 'e', 'f']
}

/// The handler id that a definition line in the file `path` gives: the path,
/// `::`, and what stands between the first `def` and the `(` after it,
/// without the white space around it.
pub open spec fn handler_of(path: Seq<char>, line: Seq<char>) -> Result<Seq<char>, ScanError> {
    if !has_match(line, definition_word()) {
        Err(ScanError::MissingDefinition)
    } else {
        match split_once(line.skip(first_match(line, definition_word()) + 3), '(') {
            None => Err(ScanError::MissingParameterList),
            Some((name, parameters)) => Ok(path + scope_mark() + trim(name)),
        }
    }
}

/// What one more line adds to what has been found. A line with the marker
/// sets the pending pattern to what stands from its first `/` on, without
/// the white space around it. The next line that is not blank gives the
/// handler of the pending pattern. Other lines add nothing.
pub open spec fn scan_line(path: Seq<char>, state: ScanState, line: Seq<char>) -> Result<
    ScanState,
    ScanError,
> {
    if has_match(line, route_marker()) {
        if line.contains('/') {
            Ok(ScanState { routes: state.routes, pending: Some(trim(line.skip(first_index(line, '/')))) })
        } else {
            Err(ScanError::MarkerWithoutRoute)
        }
    } else if trim(line).len() > 0 && state.pending is Some {
        match handler_of(path, line) {
            Ok(handler) => Ok(
                ScanState { routes: state.routes.push((state.pending->0, handler)), pending: None },
            ),
            Err(e) => Err(e),
        }
    } else {
        Ok(state)
    }
}

/// What is found in the lines of the file `path`, or why they are rejected.
pub open spec fn scan(path: Seq<char>, lines: Seq<Seq<char>>) -> Result<ScanState, ScanError>
    decreases lines.len(),
{
    if lines.len() == 0 {
        Ok(ScanState { routes: Seq::empty(), pending: None })
    } else {
        match scan(path, lines.drop_last()) {
            Ok(state) => scan_line(path, state, lines.last()),
            Err(e) => Err(e),
        }
    }
}

/// Lines that are rejected stay rejected, for the same reason, whatever
/// follows them.
pub proof fn lemma_rejected_stays(path: Seq<char>, lines: Seq<Seq<char>>, k: int)
    requires
        0 <= k <= lines.len(),
        scan(path, lines.take(k)) is Err,
    ensures
        scan(path, lines) == scan(path, lines.take(k)),
    decreases lines.len() - k,
{
    if k < lines.len() {
        assert(lines.take(k + 1).drop_last() =~= lines.take(k));
        lemma_rejected_stays(path, lines, k + 1);
    } else {
        assert(lines.take(k) =~= lines);
    }
}

/// The handler id that a definition line gives.
fn handler_id(path: &str, line: &Vec<char>) -> (r: Result<String, ScanError>)
    ensures
        match r {
            Ok(id) => handler_of(path@, line@) == Ok::<Seq<char>, ScanError>(id@),
            Err(e) => handler_of(path@, line@) == Err::<Seq<char>, ScanError>(e),
        },
{
    let mut word: Vec<char> = Vec::new();
    word.push('d');
    word.push('e');
    word.push('f');
    assert(word@ =~= definition_word());
    assert(line@.skip(0) =~= line@);
    let at = find_match(line, 0, &word);
    if at >= line.len() {
        return Err(ScanError::MissingDefinition);
    }
    let rest = string_of(line, at + 3, line.len());
    assert(rest@ =~= line@.skip(at + 3));
    match split_once_on(rest.as_str(), '(') {
        None => Err(ScanError::MissingParameterList),
        Some((name, _)) => {
            let name = trimmed(name.as_str());
            let mut id = path.to_owned();
            id.append("::");
            id.append(name.as_str());
            proof {
                reveal_strlit("::");
                assert("::"@ =~= scope_mark());
            }
            Ok(id)
        },
    }
}

/// Finds the routes declared in the lines of the source file `path`, each
/// with the id of its handler, in the order of their declaration.
pub fn get_routes_for_file(path: &str, lines: &Vec<String>) -> (r: Result<
    Vec<(String, String)>,
    ScanError,
>)
    ensures
        match scan(path@, views(lines@)) {
            Ok(state) => r matches Ok(routes) && pair_views(routes@) == state.routes,
            Err(e) => r matches Err(f) && f == e,
        },
{
    let ghost all = views(lines@);
    let mut marker: Vec<char> = Vec::new();
    marker.push('#');
    marker.push('-');
    marker.push('>');
    marker.push('r');
    assert(marker@ =~= route_marker());
    let mut last_path: Option<String> = None;
    let mut routes: Vec<(String, String)> = Vec::new();
    let mut i: usize = 0;
    assert(all.take(0) =~= Seq::<Seq<char>>::empty());
    assert(pair_views(routes@) =~= Seq::<(Seq<char>, Seq<char>)>::empty());
    while i < lines.len()
        invariant
            i <= lines.len(),
            all == views(lines@),
            marker@ == route_marker(),
            scan(path@, all.take(i as int)) matches Ok(state) && state.routes == pair_views(routes@)
                && state.pending == crate::text::opt_view(last_path),
        decreases lines.len() - i,
    {
        let ghost before = pair_views(routes@);
        proof {
            let upto = all.take(i + 1);
            assert(upto.drop_last() =~= all.take(i as int));
            assert(upto.last() == lines[i as int]@);
        }
        let line = chars_of(lines[i].as_str());
        assert(line@.skip(0) =~= line@);
        if find_match(&line, 0, &marker) < line.len() {
            let route_start = find_from(&line, 0, '/');
            proof {
                lemma_first_index_bounds(line@, '/');
            }
            if route_start >= line.len() {
                proof {
                    lemma_rejected_stays(path@, all, i + 1);
                }
                return Err(ScanError::MarkerWithoutRoute);
            }
            let tail = string_of(&line, route_start, line.len());
            assert(tail@ =~= line@.skip(route_start as int));
            last_path = Some(trimmed(tail.as_str()));
        } else if !trimmed(lines[i].as_str()).as_str().is_empty() && last_path.is_some() {
            match handler_id(path, &line) {
                Ok(id) => {
                    let pattern = match last_path {
                        Some(p) => p,
                        None => String::new(),
                    };
                    routes.push((pattern, id));
                    assert(pair_views(routes@) =~= before.push((pattern@, id@)));
                    last_path = None;
                },
                Err(e) => {
                    proof {
                        lemma_rejected_stays(path@, all, i + 1);
                    }
                    return Err(e);
                },
            }
        }
        i = i + 1;
    }
    assert(all.take(lines.len() as int) =~= all);
    Ok(routes)
}

} // verus!
