//! Longest-prefix dispatch of request targets to registered handlers.
//!
//! A route is a sequence of path segments. The router keeps each route
//! beside its handler, refuses to hold a route twice, and sends a request to
//! the most specific route that is an element-wise prefix of the request's
//! segments, after taking exactly those segments off the target.
use crate::reply::{Reply, ReplyModel, text_reply, STATUS_BAD_REQUEST, STATUS_NOT_FOUND};
use crate::text::{
    chars_of, count_leading, count_trailing, find_char, find_first, free_of, is_prefix_of, joined,
    lacks, leading_count, lemma_find_char, lemma_find_char_is_first, lemma_joined_ends,
    lemma_joined_keeps_absent, lemma_leading_count, lemma_leading_run, lemma_leading_stop,
    lemma_split_join, lemma_split_pieces, lemma_trailing_bound,
    lemma_trailing_count, split_on, split_range, starts_with, string_of, texts, trim_both,
};
use http::uri::{InvalidUri, PathAndQuery};
use itertools::Itertools;
use std::str::FromStr;
use vstd::prelude::*;

verus! {

/// The error of `http` for text that is no valid URI part.
#[verifier::external_type_specification]
#[verifier::external_body]
pub struct ExInvalidUri(http::uri::InvalidUri);

/// What `http` makes of `text` read as a path with an optional query: the
/// text of the parsed value, or `None` where `http` rejects `text`.
pub uninterp spec fn parsed_target(text: Seq<char>) -> Option<Seq<char>>;

/// Parses `text` with `PathAndQuery::from_str` and hands back the parsed
/// value's `as_str()`. Nothing is claimed of the outcome but that it is the
/// one `parsed_target` names.
#[verifier::external_body]
fn parse_target(text: &str) -> (parsed: Result<String, InvalidUri>)
    ensures
        match parsed {
            Ok(target) => parsed_target(text@) == Some(target@),
            Err(_) => parsed_target(text@) is None,
        },
{
    match PathAndQuery::from_str(text) {
        Ok(target) => Ok(target.as_str().to_string()),
        Err(error) => Err(error),
    }
}

/// Joins `parts` with `Itertools::join`: the parts in order, with `sep`
/// between neighbours and nothing at either end.
#[verifier::external_body]
fn join_parts(parts: &Vec<String>, sep: &str) -> (out: String)
    ensures
        out@ == joined(texts(parts@), sep@),
{
    parts.iter().join(sep)
}

/// Sorts pairs by their first component with
/// `Itertools::sorted_unstable_by_key`: the same pairs come back, in
/// ascending order of that component; pairs that agree on it come in any
/// order.
#[verifier::external_body]
fn sort_by_length(found: Vec<(usize, usize)>) -> (out: Vec<(usize, usize)>)
    ensures
        out@.to_multiset() == found@.to_multiset(),
        forall|i: int, j: int| 0 <= i <= j < out.len() ==> out[i].0 <= out[j].0,
{
    found.into_iter().sorted_unstable_by_key(|pair| pair.0).collect()
}

/// Each segment of `route` behind a slash.
pub open spec fn slashed(route: Seq<Seq<char>>) -> Seq<Seq<char>> {
    Seq::new(route.len(), |i: int| seq!['/'] + route[i])
}

/// The path that names `route`: each segment behind a slash, one after
/// another; the empty text for the empty route.
pub open spec fn route_string(route: Seq<Seq<char>>) -> Seq<char> {
    joined(slashed(route), Seq::<char>::empty())
}

/// What stands before the first `?` of a request target.
pub open spec fn before_query(target: Seq<char>) -> Seq<char> {
    target.take(find_char(target, '?') as int)
}

/// The path of a request target: what stands before the first `?`, and
/// the root where nothing stands there.
pub open spec fn request_path(target: Seq<char>) -> Seq<char> {
    if before_query(target).len() == 0 {
        seq!['/']
    } else {
        before_query(target)
    }
}

/// The query of a request target with its `?`, or nothing.
pub open spec fn query_suffix(target: Seq<char>) -> Seq<char> {
    target.skip(find_char(target, '?') as int)
}

/// The segments of a path: the slashes at both ends are dropped, and what
/// is left is split at every slash.
pub open spec fn path_segments(path: Seq<char>) -> Seq<Seq<char>> {
    split_on(trim_both(path, '/'), '/')
}

/// The path that a handler sees when `segments` are left of the request's
/// path: the root where none is left.
pub open spec fn remaining_path(segments: Seq<Seq<char>>) -> Seq<char> {
    if segments.len() == 0 {
        seq!['/']
    } else {
        route_string(segments)
    }
}

/// The target of a request after its first `matched` segments were taken
/// off: the remaining path, and the query as it was.
pub open spec fn rewritten_target(target: Seq<char>, matched: nat) -> Seq<char> {
    remaining_path(segments_after(path_segments(request_path(target)), matched)) + query_suffix(
        target,
    )
}

/// `segments` without its first `matched` elements; nothing where there
/// are fewer.
pub open spec fn segments_after(segments: Seq<Seq<char>>, matched: nat) -> Seq<Seq<char>> {
    if matched <= segments.len() {
        segments.skip(matched as int)
    } else {
        Seq::empty()
    }
}

/// The path that names `route`: every segment behind a slash, and the empty
/// text for the empty route.
pub fn route_vec_to_string(route: &Vec<String>) -> (out: String)
    ensures
        out@ == route_string(texts(route@)),
{
    let mut parts: Vec<String> = Vec::new();
    let mut i: usize = 0;
    while i < route.len()
        invariant
            i <= route.len(),
            parts.len() == i,
            texts(parts@) == slashed(texts(route@)).take(i as int),
        decreases route.len() - i,
    {
        let mut part = String::new();
        part.append("/");
        part.append(route[i].as_str());
        proof {
            reveal_strlit("/");
            assert("/"@ =~= seq!['/']);
            assert(part@ =~= seq!['/'] + route[i as int]@);
            let grown = texts(parts@.push(part));
            let wanted = slashed(texts(route@)).take(i + 1);
            assert(texts(route@)[i as int] == route[i as int]@);
            assert(slashed(texts(route@)).len() == route.len());
            assert(grown.len() == i + 1 && wanted.len() == i + 1);
            assert forall|k: int| 0 <= k < grown.len() implies grown[k] == wanted[k] by {
                if k < i {
                    assert(grown[k] == texts(parts@)[k]);
                    assert(wanted[k] == slashed(texts(route@)).take(i as int)[k]);
                }
            }
            assert(grown =~= wanted);
        }
        parts.push(part);
        i += 1;
    }
    proof {
        assert(slashed(texts(route@)).take(route.len() as int) =~= slashed(texts(route@)));
        reveal_strlit("");
        assert(""@ =~= Seq::<char>::empty());
    }
    join_parts(&parts, "")
}

/// The root and the empty path have the same segments: one, and it is
/// empty.
pub proof fn lemma_root_has_one_empty_segment()
    ensures
        path_segments(seq!['/']) == seq![Seq::<char>::empty()],
        path_segments(Seq::<char>::empty()) == seq![Seq::<char>::empty()],
{
    let root = seq!['/'];
    let none = Seq::<char>::empty();
    lemma_leading_count(root, '/', 1);
    assert(root.skip(1) =~= none);
    assert(trim_both(root, '/') =~= none);
    assert(trim_both(none, '/') =~= none);
}

/// The segments of the path of `target`.
pub fn request_segments(target: &str) -> (segments: Vec<String>)
    ensures
        texts(segments@) == path_segments(request_path(target@)),
{
    let chars = chars_of(target);
    let end = find_first(&chars, '?');
    let lead = count_leading(&chars, 0, '/');
    let from = if lead < end { lead } else { end };
    let trail = count_trailing(&chars, from, end, '/');
    proof {
        let path = request_path(target@);
        assert(chars@.skip(0) =~= chars@);
        if end == 0 {
            lemma_root_has_one_empty_segment();
            assert(chars@.subrange(0, 0) =~= Seq::<char>::empty());
        } else {
            assert(path =~= chars@.subrange(0, end as int));
            // the leading run of the path is the target's, cut at the `?`
            assert forall|j: int| 0 <= j < from implies path[j] == '/' by {
                lemma_leading_run(chars@, '/', j);
            }
            if from < end {
                lemma_leading_stop(chars@, '/');
            }
            lemma_leading_count(path, '/', from as nat);
            assert(path.skip(from as int) =~= chars@.subrange(from as int, end as int));
            assert(trim_both(path, '/') =~= chars@.subrange(from as int, end - trail));
        }
    }
    split_range(&chars, from, end - trail, '/')
}

/// The path of a route with at least one segment is a slash followed by
/// the segments joined with slashes.
pub proof fn lemma_route_string_joins(route: Seq<Seq<char>>)
    requires
        route.len() >= 1,
    ensures
        route_string(route) == seq!['/'] + joined(route, seq!['/']),
    decreases route.len(),
{
    let none = Seq::<char>::empty();
    if route.len() == 1 {
        assert(route_string(route) =~= seq!['/'] + route[0]);
    } else {
        lemma_route_string_joins(route.drop_last());
        assert(slashed(route).drop_last() =~= slashed(route.drop_last()));
        assert(route_string(route) =~= route_string(route.drop_last()) + none + (seq!['/']
            + route.last()));
        assert(route_string(route) =~= seq!['/'] + joined(route, seq!['/']));
    }
}

/// A handler mounted under a route sees what the route left over: where
/// none of the remaining segments is empty, the segments of the rewritten
/// target are the request's segments without the matched ones, and the
/// query is the request's. A router mounted as a handler therefore
/// dispatches on exactly the segments that its mount point did not use.
pub proof fn lemma_rewritten_segments(target: Seq<char>, matched: nat)
    requires
        matched < path_segments(request_path(target)).len(),
        forall|i: int|
            matched <= i < path_segments(request_path(target)).len() ==> (
            #[trigger] path_segments(request_path(target))[i]).len() > 0,
    ensures
        path_segments(request_path(rewritten_target(target, matched))) == path_segments(
            request_path(target),
        ).skip(matched as int),
        query_suffix(rewritten_target(target, matched)) == query_suffix(target),
{
    let path = request_path(target);
    let query = query_suffix(target);
    let trimmed = trim_both(path, '/');
    let segments = path_segments(path);
    let rest = segments.skip(matched as int);
    let slash = seq!['/'];
    // the path is not the root that stands in for an empty path
    if before_query(target).len() == 0 {
        lemma_root_has_one_empty_segment();
        assert(segments[0].len() == 0);
    }
    assert(path == before_query(target));
    // the path holds no `?`, so neither do its segments
    lemma_find_char_is_first(target, '?');
    assert(lacks(trimmed, '?')) by {
        lemma_leading_stop(path, '/');
        let lead = leading_count(path, '/') as int;
        lemma_trailing_bound(path.skip(lead), '/');
        assert forall|j: int| 0 <= j < trimmed.len() implies trimmed[j] != '?' by {
            assert(trimmed[j] == path.skip(lead)[j]);
            assert(path.skip(lead)[j] == path[lead + j]);
        }
    }
    lemma_split_pieces(trimmed, '/', '?');
    lemma_split_pieces(trimmed, '/', '/');
    assert(free_of(rest, '?') && free_of(rest, '/')) by {
        assert forall|i: int, j: int|
            0 <= i < rest.len() && 0 <= j < rest[i].len() implies (#[trigger] rest[i][j]) != '?'
            && rest[i][j] != '/' by {
            assert(rest[i][j] == segments[i + matched][j]);
        }
    }
    // the remaining path is a slash and the remaining segments, joined
    let body = joined(rest, slash);
    let remaining = remaining_path(rest);
    lemma_route_string_joins(rest);
    assert(remaining == slash + body);
    lemma_joined_keeps_absent(rest, slash, '?');
    lemma_joined_ends(rest, slash);
    assert(rest[0].len() > 0) by {
        assert(rest[0] == segments[matched as int]);
    }
    assert(rest.last().len() > 0) by {
        assert(rest.last() == segments[segments.len() - 1]);
    }
    assert(rest[0][0] != '/');
    assert(rest[rest.len() - 1][rest.last().len() - 1] != '/');
    // the rewritten target splits into that path and the old query
    let rewritten = rewritten_target(target, matched);
    assert(rewritten == remaining + query);
    assert forall|j: int| 0 <= j < remaining.len() implies rewritten[j] != '?' by {
        if j > 0 {
            assert(rewritten[j] == body[j - 1]);
        }
    }
    if query.len() > 0 {
        assert(rewritten[remaining.len() as int] == query[0]);
        assert(query[0] == target[find_char(target, '?') as int]);
    }
    lemma_find_char(rewritten, '?', remaining.len());
    assert(request_path(rewritten) =~= remaining);
    assert(query_suffix(rewritten) =~= query);
    // trimming the remaining path takes the one slash in front
    assert(remaining[1] == body[0]);
    lemma_leading_count(remaining, '/', 1);
    assert(remaining.skip(1) =~= body);
    assert(body.last() == rest.last().last());
    lemma_trailing_count(body, '/', 0);
    assert(trim_both(remaining, '/') =~= body);
    lemma_split_join(rest, '/');
}

/// The route that a slash-joined path names: its pieces between slashes,
/// without the empty ones.
pub open spec fn route_of(path: Seq<char>) -> Seq<Seq<char>> {
    split_on(path, '/').filter(|piece: Seq<char>| piece.len() > 0)
}

/// The route that a path names has no empty segment and no slash inside a
/// segment.
pub proof fn lemma_route_of_is_clean(path: Seq<char>)
    ensures
        free_of(route_of(path), '/'),
        forall|i: int| 0 <= i < route_of(path).len() ==> (#[trigger] route_of(path)[i]).len() > 0,
{
    let pieces = split_on(path, '/');
    let kept = |piece: Seq<char>| piece.len() > 0;
    let route = pieces.filter(kept);
    lemma_split_pieces(path, '/', '/');
    assert forall|i: int| 0 <= i < route.len() implies (#[trigger] route[i]).len() > 0 && lacks(
        route[i],
        '/',
    ) by {
        pieces.lemma_filter_pred(kept, i);
        assert(route.contains(route[i]));
        pieces.lemma_filter_contains_rev(kept, route[i]);
        let at = pieces.index_of(route[i]);
        assert forall|j: int| 0 <= j < route[i].len() implies route[i][j] != '/' by {
            assert(pieces[at][j] != '/');
        }
    }
    assert forall|i: int, j: int|
        0 <= i < route.len() && 0 <= j < route[i].len() implies (#[trigger] route[i][j]) != '/' by {
        assert(lacks(route[i], '/'));
    }
}

/// The route that `path` names: `"api/ping"` names the route of the two
/// segments `api` and `ping`; the empty path and `"/"` name the empty route.
pub fn route_from_path(path: &str) -> (route: Vec<String>)
    ensures
        texts(route@) == route_of(path@),
{
    let chars = chars_of(path);
    let pieces = split_range(&chars, 0, chars.len(), '/');
    let ghost all = texts(pieces@);
    let ghost kept = |piece: Seq<char>| piece.len() > 0;
    let mut route: Vec<String> = Vec::new();
    let mut i: usize = 0;
    proof {
        assert(chars@.subrange(0, chars.len() as int) =~= path@);
        reveal(Seq::filter);
        assert(all.take(0).filter(kept) =~= Seq::<Seq<char>>::empty());
        assert(texts(route@) =~= Seq::<Seq<char>>::empty());
    }
    while i < pieces.len()
        invariant
            i <= pieces.len(),
            all == texts(pieces@),
            kept == |piece: Seq<char>| piece.len() > 0,
            texts(route@) == all.take(i as int).filter(kept),
        decreases pieces.len() - i,
    {
        let ghost before = texts(route@);
        proof {
            reveal(Seq::filter);
            assert(all.take(i + 1).drop_last() =~= all.take(i as int));
            assert(all.take(i + 1).last() == pieces[i as int]@);
        }
        if !pieces[i].as_str().is_empty() {
            let piece = pieces[i].clone();
            route.push(piece);
            proof {
                assert(texts(route@) =~= before.push(pieces[i as int]@));
            }
        }
        i += 1;
    }
    proof {
        assert(all.take(pieces.len() as int) =~= all);
    }
    route
}

/// What the router does with a request.
#[derive(Debug)]
pub enum Dispatch {
    /// Hand the request to the handler of route number `route`, with
    /// `target` as its new path and query.
    Forward { route: usize, target: String },
    /// Answer at once; no handler is invoked.
    Respond(Reply),
}

/// Mathematical model of a [`Dispatch`].
pub enum DispatchModel {
    Forward { route: int, target: Seq<char> },
    Respond(ReplyModel),
}

impl View for Dispatch {
    type V = DispatchModel;

    open spec fn view(&self) -> DispatchModel {
        match self {
            Dispatch::Forward { route, target } => DispatchModel::Forward {
                route: *route as int,
                target: target@,
            },
            Dispatch::Respond(reply) => DispatchModel::Respond(reply@),
        }
    }
}

/// The reply to a request for `path` that no route matches.
pub open spec fn not_found_reply(path: Seq<char>) -> ReplyModel {
    text_reply(STATUS_NOT_FOUND, "Resource not found for path: "@ + path)
}

/// The reply to a request for `path` whose rewritten target is no valid
/// path and query.
pub open spec fn bad_request_reply(path: Seq<char>) -> ReplyModel {
    text_reply(STATUS_BAD_REQUEST, "Invalid request path: "@ + path)
}

/// What becomes of a request for `path` that route number `route` matched,
/// given what parsing its rewritten target gave.
pub open spec fn forwarded(route: int, path: Seq<char>, parsed: Option<Seq<char>>)
    -> DispatchModel {
    match parsed {
        Some(target) => DispatchModel::Forward { route, target },
        None => DispatchModel::Respond(bad_request_reply(path)),
    }
}

/// A table of routes, each with its handler.
///
/// Routes and handlers stand in two vectors, in the order of registration:
/// a route is a vector of strings, and of a hash map with such keys Verus
/// can prove nothing, since vstd models hashing for integer keys only.
pub struct Router<H> {
    routes: Vec<Vec<String>>,
    handlers: Vec<H>,
}

impl<H> Router<H> {
    /// The registered routes, in the order of registration.
    pub closed spec fn routes(&self) -> Seq<Seq<Seq<char>>> {
        Seq::new(self.routes@.len(), |i: int| texts(self.routes@[i]@))
    }

    /// The registered handlers: the handler of a route stands at the
    /// route's index.
    pub closed spec fn handlers(&self) -> Seq<H> {
        self.handlers@
    }

    /// Every route has a handler, and no route is held twice.
    pub open spec fn wf(&self) -> bool {
        &&& self.routes().len() == self.handlers().len()
        &&& forall|i: int, j: int|
            0 <= i < j < self.routes().len() ==> self.routes()[i] != self.routes()[j]
    }

    /// Whether `route` is registered.
    pub open spec fn has_route(&self, route: Seq<Seq<char>>) -> bool {
        self.routes().contains(route)
    }

    /// Whether route number `i` is a prefix of `segments`.
    pub open spec fn matches(&self, i: int, segments: Seq<Seq<char>>) -> bool {
        0 <= i < self.routes().len() && is_prefix_of(self.routes()[i], segments)
    }

    /// Whether route number `i` matches `segments` and no matching route
    /// has more segments.
    pub open spec fn is_best(&self, i: int, segments: Seq<Seq<char>>) -> bool {
        &&& self.matches(i, segments)
        &&& forall|j: int| #[trigger]
            self.matches(j, segments) ==> self.routes()[j].len() <= self.routes()[i].len()
    }

    /// The most specific route that matches `segments`, if any matches.
    pub open spec fn best_match(&self, segments: Seq<Seq<char>>) -> Option<int> {
        if exists|i: int| self.matches(i, segments) {
            Some(choose|i: int| self.is_best(i, segments))
        } else {
            None
        }
    }

    /// What the router does with the request target `target`.
    pub open spec fn outcome(&self, target: Seq<char>) -> DispatchModel {
        let path = request_path(target);
        match self.best_match(path_segments(path)) {
            None => DispatchModel::Respond(not_found_reply(path)),
            Some(i) => forwarded(
                i,
                path,
                parsed_target(rewritten_target(target, self.routes()[i].len())),
            ),
        }
    }

    /// What the router does with a request that has neither path nor
    /// query: its path is empty and is named so where no route matches;
    /// where one does, there is nothing to take the route off, and the
    /// request is answered as a bad one.
    pub open spec fn outcome_without_path(&self) -> DispatchModel {
        let path = Seq::<char>::empty();
        match self.best_match(path_segments(path)) {
            None => DispatchModel::Respond(not_found_reply(path)),
            Some(_) => DispatchModel::Respond(bad_request_reply(path)),
        }
    }

    /// Two most specific matches of the same segments are the same route.
    pub proof fn lemma_best_is_unique(&self, segments: Seq<Seq<char>>, i: int, j: int)
        requires
            self.wf(),
            self.is_best(i, segments),
            self.is_best(j, segments),
        ensures
            i == j,
    {
        let a = self.routes()[i];
        let b = self.routes()[j];
        assert(self.matches(i, segments));
        assert(self.matches(j, segments));
        assert(a.len() == b.len());
        assert(a == b);
    }

    /// Among the first `n` routes, one that matches `segments` and has no
    /// fewer segments than any other of them that matches.
    proof fn best_below(&self, segments: Seq<Seq<char>>, n: int) -> (best: int)
        requires
            0 <= n <= self.routes().len(),
            exists|i: int| 0 <= i < n && self.matches(i, segments),
        ensures
            0 <= best < n,
            self.matches(best, segments),
            forall|j: int|
                0 <= j < n && #[trigger] self.matches(j, segments) ==> self.routes()[j].len()
                    <= self.routes()[best].len(),
        decreases n,
    {
        let last = n - 1;
        if exists|i: int| 0 <= i < last && self.matches(i, segments) {
            let before = self.best_below(segments, last);
            if self.matches(last, segments) && self.routes()[last].len() > self.routes()[before].len() {
                last
            } else {
                before
            }
        } else {
            last
        }
    }

    /// Where a route matches, one of the matching routes is most specific.
    pub proof fn lemma_best_exists(&self, segments: Seq<Seq<char>>)
        requires
            exists|i: int| self.matches(i, segments),
        ensures
            exists|i: int| self.is_best(i, segments),
    {
        let some = choose|i: int| self.matches(i, segments);
        let best = self.best_below(segments, self.routes().len() as int);
        assert(self.is_best(best, segments));
    }

    /// A request goes to a handler exactly where some route is a prefix of
    /// its segments, and then to the one route that matches and has the
    /// most segments: being more specific wins over merely matching.
    /// Where no route matches, the reply is the one that names the path.
    pub proof fn lemma_most_specific_wins(&self, target: Seq<char>, i: int)
        requires
            self.wf(),
        ensures
            self.is_best(i, path_segments(request_path(target))) ==> self.outcome(target)
                == forwarded(
                i,
                request_path(target),
                parsed_target(rewritten_target(target, self.routes()[i].len())),
            ),
            (forall|j: int| !self.matches(j, path_segments(request_path(target))))
                ==> self.outcome(target) == DispatchModel::Respond(
                not_found_reply(request_path(target)),
            ),
            self.outcome(target) matches DispatchModel::Forward { route, .. } ==> self.is_best(
                route,
                path_segments(request_path(target)),
            ),
    {
        let segments = path_segments(request_path(target));
        if exists|j: int| self.matches(j, segments) {
            self.lemma_best_exists(segments);
            let chosen = choose|j: int| self.is_best(j, segments);
            if self.is_best(i, segments) {
                self.lemma_best_is_unique(segments, i, chosen);
            }
        }
    }

    /// A router without routes.
    pub fn new() -> (router: Router<H>)
        ensures
            router.wf(),
            router.routes() == Seq::<Seq<Seq<char>>>::empty(),
            router.handlers() == Seq::<H>::empty(),
    {
        let router = Router { routes: Vec::new(), handlers: Vec::new() };
        assert(router.routes() =~= Seq::<Seq<Seq<char>>>::empty());
        router
    }

    /// Number of registered routes.
    pub fn len(&self) -> (n: usize)
        requires
            self.wf(),
        ensures
            n == self.routes().len(),
    {
        self.routes.len()
    }

    /// Whether `route` is registered.
    pub fn contains_route(&self, route: &Vec<String>) -> (yes: bool)
        requires
            self.wf(),
        ensures
            yes == self.has_route(texts(route@)),
    {
        let mut i: usize = 0;
        while i < self.routes.len()
            invariant
                i <= self.routes.len(),
                forall|k: int| 0 <= k < i ==> self.routes()[k] != texts(route@),
            decreases self.routes.len() - i,
        {
            if self.routes[i].len() == route.len() && starts_with(&self.routes[i], route) {
                proof {
                    let held = self.routes()[i as int];
                    assert(held.take(route.len() as int) =~= held);
                }
                return true;
            }
            proof {
                let held = self.routes()[i as int];
                if held == texts(route@) {
                    assert(held.take(route.len() as int) =~= held);
                }
            }
            i += 1;
        }
        false
    }

    /// Registers `func` as the handler of `route`. A route is registered
    /// once: a caller that cannot rule out a second registration asks
    /// [`Router::contains_route`] first.
    pub fn with_route_fn(&mut self, route: Vec<String>, func: H)
        requires
            old(self).wf(),
            !old(self).has_route(texts(route@)),
        ensures
            final(self).wf(),
            final(self).routes() == old(self).routes().push(texts(route@)),
            final(self).handlers() == old(self).handlers().push(func),
    {
        let ghost before = self.routes();
        let ghost added = texts(route@);
        self.routes.push(route);
        self.handlers.push(func);
        proof {
            assert(self.routes() =~= before.push(added));
            assert forall|i: int, j: int| 0 <= i < j < self.routes().len() implies self.routes()[i]
                != self.routes()[j] by {
                if j == before.len() {
                    assert(before.contains(before[i]));
                } else {
                    assert(self.routes()[i] == before[i]);
                    assert(self.routes()[j] == before[j]);
                }
            }
        }
    }

    /// The handler of route number `route`.
    pub fn handler(&self, route: usize) -> (handler: &H)
        requires
            self.wf(),
            route < self.routes().len(),
        ensures
            *handler == self.handlers()[route as int],
    {
        &self.handlers[route]
    }

    /// The route registered as number `route`.
    pub fn route(&self, route: usize) -> (segments: &Vec<String>)
        requires
            self.wf(),
            route < self.routes().len(),
        ensures
            texts(segments@) == self.routes()[route as int],
    {
        &self.routes[route]
    }
}


/// Whether one of `candidates` stands for route number `j`.
pub open spec fn lists(candidates: Seq<(usize, usize)>, j: int) -> bool {
    exists|k: int| 0 <= k < candidates.len() && (#[trigger] candidates[k]).1 == j
}

impl<H> Router<H> {
    /// The most specific route that is a prefix of `segments`: its number,
    /// or `None` where no route matches.
    pub fn select(&self, segments: &Vec<String>) -> (found: Option<usize>)
        requires
            self.wf(),
        ensures
            match found {
                Some(i) => self.is_best(i as int, texts(segments@)),
                None => forall|i: int| !self.matches(i, texts(segments@)),
            },
            found matches Some(i) ==> self.best_match(texts(segments@)) == Some(i as int),
            found is None ==> self.best_match(texts(segments@)) is None,
    {
        let ghost wanted = texts(segments@);
        let mut candidates: Vec<(usize, usize)> = Vec::new();
        let mut i: usize = 0;
        while i < self.routes.len()
            invariant
                i <= self.routes.len(),
                wanted == texts(segments@),
                forall|k: int|
                    0 <= k < candidates.len() ==> {
                        &&& self.matches((#[trigger] candidates[k]).1 as int, wanted)
                        &&& candidates[k].0 == self.routes()[candidates[k].1 as int].len()
                    },
                forall|j: int|
                    0 <= j < i && #[trigger] self.matches(j, wanted) ==> lists(candidates@, j),
            decreases self.routes.len() - i,
        {
            if starts_with(segments, &self.routes[i]) {
                let ghost before = candidates@;
                candidates.push((self.routes[i].len(), i));
                proof {
                    assert(candidates@[before.len() as int].1 == i);
                    assert forall|j: int| 0 <= j <= i && #[trigger] self.matches(j, wanted) implies lists(
                        candidates@,
                        j,
                    ) by {
                        if j < i {
                            assert(lists(before, j));
                            let k = choose|k: int| 0 <= k < before.len() && (#[trigger] before[k]).1 == j;
                            assert(candidates@[k] == before[k]);
                        }
                    }
                }
            }
            i += 1;
        }
        let ghost unsorted = candidates@;
        let sorted = sort_by_length(candidates);
        proof {
            unsorted.to_multiset_ensures();
            sorted@.to_multiset_ensures();
        }
        if sorted.len() == 0 {
            proof {
                assert(unsorted.len() == 0);
                assert forall|j: int| !self.matches(j, wanted) by {
                    if self.matches(j, wanted) {
                        assert(lists(unsorted, j));
                    }
                }
            }
            None
        } else {
            let best = sorted[sorted.len() - 1];
            proof {
                assert(sorted@.contains(best));
                assert(sorted@.to_multiset().count(best) > 0);
                assert(unsorted.to_multiset().count(best) > 0);
                assert(unsorted.contains(best));
                let at = unsorted.index_of(best);
                assert(unsorted[at] == best);
                assert(self.matches(unsorted[at].1 as int, wanted));
                assert forall|j: int| #[trigger] self.matches(j, wanted) implies self.routes()[j].len()
                    <= self.routes()[best.1 as int].len() by {
                    assert(lists(unsorted, j));
                    let k = choose|k: int| 0 <= k < unsorted.len() && (#[trigger] unsorted[k]).1 == j;
                    let pair = unsorted[k];
                    assert(unsorted.contains(pair));
                    assert(unsorted.to_multiset().count(pair) > 0);
                    assert(sorted@.to_multiset().count(pair) > 0);
                    assert(sorted@.contains(pair));
                    let place = sorted@.index_of(pair);
                    assert(sorted[place].0 <= sorted[sorted.len() - 1].0);
                }
                assert(self.is_best(best.1 as int, wanted));
                self.lemma_best_is_unique(
                    wanted,
                    best.1 as int,
                    choose|i: int| self.is_best(i, wanted),
                );
            }
            Some(best.1)
        }
    }
}

/// The path of `target`: what stands before the first `?`, and the root
/// where nothing stands there.
pub fn path_of(target: &str) -> (path: String)
    ensures
        path@ == request_path(target@),
{
    let chars = chars_of(target);
    let end = find_first(&chars, '?');
    if end == 0 {
        proof {
            reveal_strlit("/");
            assert("/"@ =~= seq!['/']);
        }
        return "/".to_owned();
    }
    proof {
        assert(chars@.subrange(0, end as int) =~= chars@.take(end as int));
    }
    string_of(&chars, 0, end)
}

/// The target of a request after its first `matched` segments were taken
/// off: the remaining segments as a path (the root where none remains)
/// and the query as it was.
pub fn trim_route_string_from_request(target: &str, matched: usize) -> (out: String)
    ensures
        out@ == rewritten_target(target@, matched as nat),
{
    let segments = request_segments(target);
    let start = if matched <= segments.len() { matched } else { segments.len() };
    let mut rest: Vec<String> = Vec::new();
    let mut i: usize = start;
    while i < segments.len()
        invariant
            start <= i <= segments.len(),
            rest.len() == i - start,
            texts(rest@) == texts(segments@).subrange(start as int, i as int),
        decreases segments.len() - i,
    {
        let ghost before = rest@;
        let segment = segments[i].clone();
        rest.push(segment);
        proof {
            let grown = texts(rest@);
            let wanted = texts(segments@).subrange(start as int, i + 1);
            assert(grown.len() == wanted.len());
            assert forall|k: int| 0 <= k < grown.len() implies grown[k] == wanted[k] by {
                if k < before.len() {
                    assert(grown[k] == texts(before)[k]);
                    assert(texts(before)[k] == texts(segments@).subrange(start as int, i as int)[k]);
                } else {
                    assert(grown[k] == segment@);
                    assert(wanted[k] == texts(segments@)[i as int]);
                }
            }
            assert(grown =~= wanted);
        }
        i += 1;
    }
    proof {
        let all = texts(segments@);
        if matched <= segments.len() {
            assert(all.subrange(start as int, segments.len() as int) =~= all.skip(matched as int));
        } else {
            assert(texts(rest@) =~= Seq::<Seq<char>>::empty());
        }
        assert(texts(rest@) == segments_after(all, matched as nat));
    }
    let mut out = if rest.len() == 0 {
        proof {
            reveal_strlit("/");
            assert("/"@ =~= seq!['/']);
        }
        "/".to_owned()
    } else {
        route_vec_to_string(&rest)
    };
    let chars = chars_of(target);
    let end = find_first(&chars, '?');
    let query = string_of(&chars, end, chars.len());
    proof {
        assert(chars@.subrange(end as int, chars.len() as int) =~= query_suffix(target@));
    }
    out.append(query.as_str());
    out
}

/// What becomes of a request for `path` that route number `route` matched,
/// once its rewritten target was parsed: the request goes to the route's
/// handler with the parsed target, or is answered as a bad request where
/// the target was rejected.
pub fn forward(route: usize, path: &str, parsed: Result<String, InvalidUri>) -> (dispatch: Dispatch)
    ensures
        dispatch@ == forwarded(
            route as int,
            path@,
            match parsed {
                Ok(target) => Some(target@),
                Err(_) => None,
            },
        ),
{
    match parsed {
        Ok(target) => Dispatch::Forward { route, target },
        Err(_) => Dispatch::Respond(reject(path)),
    }
}

/// The reply to a request for `path` whose target cannot be made into one
/// that a handler can take.
pub fn reject(path: &str) -> (reply: Reply)
    ensures
        reply@ == bad_request_reply(path@),
{
    Reply::text(STATUS_BAD_REQUEST, "Invalid request path: ", path)
}

impl<H> Router<H> {
    /// Dispatches the request target `target`: to the handler of the most
    /// specific route that is a prefix of its path's segments, with those
    /// segments taken off the target; or to nobody, with a reply that names
    /// the path, where no route matches.
    pub fn call(&self, target: &str) -> (dispatch: Dispatch)
        requires
            self.wf(),
        ensures
            dispatch@ == self.outcome(target@),
    {
        let path = path_of(target);
        let segments = request_segments(target);
        match self.select(&segments) {
            None => Dispatch::Respond(
                Reply::text(STATUS_NOT_FOUND, "Resource not found for path: ", path.as_str()),
            ),
            Some(route) => {
                let rewritten = trim_route_string_from_request(target, self.routes[route].len());
                let parsed = parse_target(rewritten.as_str());
                forward(route, path.as_str(), parsed)
            },
        }
    }

    /// Dispatches a request that has neither path nor query. No handler
    /// is invoked.
    pub fn call_without_path(&self) -> (dispatch: Dispatch)
        requires
            self.wf(),
        ensures
            dispatch@ == self.outcome_without_path(),
    {
        let path = String::new();
        let mut segments: Vec<String> = Vec::new();
        segments.push(String::new());
        proof {
            lemma_root_has_one_empty_segment();
            assert(texts(segments@) =~= seq![Seq::<char>::empty()]);
        }
        match self.select(&segments) {
            None => Dispatch::Respond(
                Reply::text(STATUS_NOT_FOUND, "Resource not found for path: ", path.as_str()),
            ),
            Some(_) => Dispatch::Respond(reject(path.as_str())),
        }
    }
}

} // verus!
