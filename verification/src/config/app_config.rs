//! The application's configuration, the rotating backend group of one
//! prefix, and the routing table that resolves a request path.

use crate::config::prefix::{all_distinct, is_longest_match, is_match, longest_match, position_of};
use crate::config::rotation::slot_of;
use crate::config::routes::{
    best_route, ignored_prefixes, is_best_route, is_route, lemma_best_route_is, route_map,
    suffix_after, target_url,
};
use std::sync::atomic::AtomicUsize;
use vstd::prelude::*;
use vstd::std_specs::iter::IteratorSpec;
use vstd::string::{StrSliceExecFns, StringExecFns};

verus! {

/// What the application is started with: the log level, the port to
/// listen on, and the routes. A route is a path prefix with the backends
/// that serve it, in the order in which they rotate. The routes are read
/// in order: where a prefix occurs twice, the later route counts.
#[derive(Debug)]
pub struct ApplicationConfig {
    pub log_level: String,
    pub port: u16,
    pub map: Vec<(String, Vec<String>)>,
}

impl ApplicationConfig {
    /// The prefixes of the entries that name no backend, in the order of
    /// the entries: the routes that the table will not hold.
    pub fn ignored_prefixes(&self) -> (r: Vec<String>)
        ensures
            r.deep_view() == ignored_prefixes(self.map.deep_view()),
    {
        let ghost config = self.map.deep_view();
        let mut ignored: Vec<String> = Vec::new();
        let mut i: usize = 0;
        assert(ignored.deep_view() =~= ignored_prefixes(config.take(0)));
        while i < self.map.len()
            invariant
                i <= self.map.len(),
                config == self.map.deep_view(),
                ignored.deep_view() == ignored_prefixes(config.take(i as int)),
            decreases self.map.len() - i,
        {
            let ghost before = ignored.deep_view();
            proof {
                assert(config.take(i + 1).drop_last() == config.take(i as int));
                assert(config.take(i + 1).last() == config[i as int]);
            }
            if self.map[i].1.len() == 0 {
                ignored.push(self.map[i].0.clone());
                assert(ignored.deep_view() == before.push(config[i as int].0));
            }
            i += 1;
        }
        assert(config.take(self.map.len() as int) == config);
        ignored
    }
}

/// The backends of one prefix, handed out in rotation.
///
/// Its view is the ordered sequence of backend base URLs. The cursor is an
/// atomic counter that starts at zero: every draw takes the current value
/// as its ticket and leaves the cursor one higher, wrapping at the end of
/// `usize`. A ticket selects the backend at `slot_of(ticket, size)`.
pub struct ApiRouteRoulette {
    routes: Vec<String>,
    counter: AtomicUsize,
}

impl View for ApiRouteRoulette {
    type V = Seq<Seq<char>>;

    closed spec fn view(&self) -> Seq<Seq<char>> {
        self.routes.deep_view()
    }
}

impl ApiRouteRoulette {
    /// A group over `routes`, in the order given, with a fresh cursor.
    pub fn new(routes: Vec<String>) -> (r: Self)
        ensures
            r@ == routes.deep_view(),
    {
        ApiRouteRoulette { routes, counter: AtomicUsize::new(0) }
    }

    /// The number of backends in the group.
    pub fn size(&self) -> (n: usize)
        ensures
            n == self@.len(),
    {
        self.routes.len()
    }

    /// Takes the next ticket from the shared cursor. The value depends on
    /// the draws made before, possibly by other threads, so nothing is
    /// promised of it.
    fn draw(&self) -> usize {
        self.counter.fetch_add(1, std::sync::atomic::Ordering::AcqRel)
    }

    /// The backend that `ticket` selects.
    pub fn select(&self, ticket: usize) -> (r: String)
        requires
            self@.len() > 0,
        ensures
            r@ == self@[slot_of(ticket, self@.len())],
    {
        let slot: usize = ticket % self.routes.len();
        self.routes[slot].clone()
    }

    /// Draws a ticket and returns the backend it selects. Whatever the
    /// ticket, the result is a member of the group.
    pub fn next(&self) -> (r: String)
        requires
            self@.len() > 0,
        ensures
            exists|ticket: usize| r@ == self@[#[trigger] slot_of(ticket, self@.len())],
            self@.contains(r@),
    {
        let ticket: usize = self.draw();
        let r = self.select(ticket);
        proof {
            let slot = slot_of(ticket, self@.len());
            assert(0 <= slot < self@.len());
            assert(self@[slot] == r@);
        }
        r
    }
}

/// The table that holds `groups[i]` under `prefixes[i]`.
spec fn table_of(prefixes: Seq<Seq<char>>, groups: Seq<Seq<Seq<char>>>) -> Map<
    Seq<char>,
    Seq<Seq<char>>,
> {
    Map::new(|p: Seq<char>| prefixes.contains(p), |p: Seq<char>| groups[prefixes.index_of(p)])
}

/// The views of a list of groups.
spec fn group_views(groups: Seq<ApiRouteRoulette>) -> Seq<Seq<Seq<char>>> {
    Seq::new(groups.len(), |i: int| groups[i]@)
}

proof fn lemma_position_in_distinct(prefixes: Seq<Seq<char>>, i: int)
    requires
        all_distinct(prefixes),
        0 <= i < prefixes.len(),
    ensures
        prefixes.contains(prefixes[i]),
        prefixes.index_of(prefixes[i]) == i,
{
    assert(prefixes.contains(prefixes[i]));
    let k = prefixes.index_of(prefixes[i]);
    assert(0 <= k < prefixes.len() && prefixes[k] == prefixes[i]);
}

proof fn lemma_table_push(
    prefixes: Seq<Seq<char>>,
    groups: Seq<Seq<Seq<char>>>,
    prefix: Seq<char>,
    group: Seq<Seq<char>>,
)
    requires
        prefixes.len() == groups.len(),
        all_distinct(prefixes),
        !prefixes.contains(prefix),
    ensures
        all_distinct(prefixes.push(prefix)),
        table_of(prefixes.push(prefix), groups.push(group)) == table_of(prefixes, groups).insert(
            prefix,
            group,
        ),
{
    let longer = prefixes.push(prefix);
    assert(all_distinct(longer)) by {
        assert forall|i: int, j: int|
            0 <= i < longer.len() && 0 <= j < longer.len() && i != j implies longer[i]
            != longer[j] by {
            if i < prefixes.len() && j < prefixes.len() {
                assert(prefixes[i] != prefixes[j]);
            } else if i < prefixes.len() {
                assert(prefixes.contains(prefixes[i]));
            } else {
                assert(prefixes.contains(prefixes[j]));
            }
        }
    }
    let before = table_of(prefixes, groups);
    let after = table_of(longer, groups.push(group));
    assert forall|p: Seq<char>| after.contains_key(p) <==> before.insert(
        prefix,
        group,
    ).contains_key(p) by {
        if longer.contains(p) {
            let k = longer.index_of(p);
            if k < prefixes.len() {
                assert(prefixes[k] == p);
                assert(prefixes.contains(p));
            }
        }
        if prefixes.contains(p) {
            let k = prefixes.index_of(p);
            assert(longer[k] == p);
        }
        if p == prefix {
            assert(longer[prefixes.len() as int] == p);
        }
    }
    assert forall|p: Seq<char>| after.contains_key(p) implies after[p] == before.insert(
        prefix,
        group,
    )[p] by {
        let k = longer.index_of(p);
        assert(0 <= k < longer.len() && longer[k] == p);
        lemma_position_in_distinct(longer, k);
        if k < prefixes.len() {
            lemma_position_in_distinct(prefixes, k);
        }
    }
    assert(after =~= before.insert(prefix, group));
}

proof fn lemma_table_replace(
    prefixes: Seq<Seq<char>>,
    groups: Seq<Seq<Seq<char>>>,
    at: int,
    group: Seq<Seq<char>>,
)
    requires
        prefixes.len() == groups.len(),
        all_distinct(prefixes),
        0 <= at < prefixes.len(),
    ensures
        table_of(prefixes, groups.update(at, group)) == table_of(prefixes, groups).insert(
            prefixes[at],
            group,
        ),
{
    let before = table_of(prefixes, groups);
    let after = table_of(prefixes, groups.update(at, group));
    lemma_position_in_distinct(prefixes, at);
    assert forall|p: Seq<char>| after.contains_key(p) implies after[p] == before.insert(
        prefixes[at],
        group,
    )[p] by {
        let k = prefixes.index_of(p);
        assert(0 <= k < prefixes.len() && prefixes[k] == p);
        lemma_position_in_distinct(prefixes, k);
    }
    assert(after =~= before.insert(prefixes[at], group));
}

/// A longest match in the list of prefixes is a best route in the table
/// made of them, and where the list has no match the table has no route.
proof fn lemma_match_is_route(
    prefixes: Seq<Seq<char>>,
    groups: Seq<Seq<Seq<char>>>,
    path: Seq<char>,
    found: Option<int>,
)
    requires
        prefixes.len() == groups.len(),
        match found {
            Some(i) => is_longest_match(prefixes, path, i),
            None => forall|j: int| !is_match(prefixes, path, j),
        },
    ensures
        match found {
            Some(i) => is_best_route(table_of(prefixes, groups), path, prefixes[i]),
            None => forall|q: Seq<char>| !is_route(table_of(prefixes, groups), path, q),
        },
{
    let table = table_of(prefixes, groups);
    assert forall|q: Seq<char>| is_route(table, path, q) implies exists|j: int|
        is_match(prefixes, path, j) && prefixes[j] == q by {
        let j = prefixes.index_of(q);
        assert(is_match(prefixes, path, j) && prefixes[j] == q);
    }
    match found {
        Some(i) => {
            assert(prefixes.contains(prefixes[i]));
            assert forall|q: Seq<char>| is_route(table, path, q) implies q.len()
                <= prefixes[i].len() by {
                let j = choose|j: int| is_match(prefixes, path, j) && prefixes[j] == q;
                assert(prefixes[j].len() <= prefixes[i].len());
            }
        },
        None => {},
    }
}

/// The outcome of resolving a path: how many of its characters the
/// matched prefix covers, and the backend chosen from that prefix's group.
#[derive(Debug, PartialEq, Eq)]
pub struct ResolvedTarget {
    pub matched: usize,
    pub backend: String,
}

/// The URL of `target` for the request `uri`: the backend, followed by
/// what `uri` holds behind the matched prefix.
pub fn forward_url(target: &ResolvedTarget, uri: &str) -> (r: String)
    ensures
        r@ == target.backend@ + suffix_after(uri@, target.matched as int),
{
    let len: usize = uri.unicode_len();
    if target.matched <= len {
        let rest: &str = uri.substring_char(target.matched, len);
        assert(uri@.subrange(target.matched as int, len as int) == uri@.skip(
            target.matched as int,
        ));
        target.backend.clone().concat(rest)
    } else {
        let r = target.backend.clone();
        assert(r@ == r@ + Seq::<char>::empty());
        r
    }
}

/// The routing table: every registered prefix with its group of backends.
///
/// Its view is the map from prefix to the ordered backends of that prefix.
/// The table is fixed once built; only the cursors of its groups move.
pub struct RedirectionReader {
    prefixes: Vec<String>,
    groups: Vec<ApiRouteRoulette>,
}

impl View for RedirectionReader {
    type V = Map<Seq<char>, Seq<Seq<char>>>;

    closed spec fn view(&self) -> Map<Seq<char>, Seq<Seq<char>>> {
        table_of(self.prefixes.deep_view(), group_views(self.groups@))
    }
}

impl RedirectionReader {
    #[verifier::type_invariant]
    spec fn well_formed(&self) -> bool {
        &&& self.prefixes.len() == self.groups.len()
        &&& all_distinct(self.prefixes.deep_view())
        &&& forall|i: int| 0 <= i < self.groups.len() ==> (#[trigger] self.groups@[i])@.len() > 0
    }

    /// Builds the table that `map` describes. The entries are taken in
    /// order: one without backends registers nothing, and one for a prefix
    /// that is registered already replaces its group.
    pub fn new(map: Vec<(String, Vec<String>)>) -> (r: Self)
        ensures
            r@ == route_map(map.deep_view()),
    {
        let ghost config = map.deep_view();
        let ghost entries = map@;
        let mut prefixes: Vec<String> = Vec::new();
        let mut groups: Vec<ApiRouteRoulette> = Vec::new();
        assert(table_of(prefixes.deep_view(), group_views(groups@)) =~= route_map(config.take(0)));
        for entry in rest: map
            invariant
                rest.seq() == entries,
                config.len() == entries.len(),
                forall|i: int|
                    0 <= i < entries.len() ==> #[trigger] config[i] == (
                        entries[i].0@,
                        entries[i].1.deep_view(),
                    ),
                prefixes.len() == groups.len(),
                all_distinct(prefixes.deep_view()),
                forall|i: int| 0 <= i < groups.len() ==> (#[trigger] groups@[i])@.len() > 0,
                table_of(prefixes.deep_view(), group_views(groups@)) == route_map(
                    config.take(rest.index() as int),
                ),
        {
            let ghost done = rest.index() as int;
            let ghost names = prefixes.deep_view();
            let ghost views = group_views(groups@);
            let (key, value) = entry;
            proof {
                assert(config.take(done + 1).drop_last() == config.take(done));
                assert(config.take(done + 1).last() == config[done]);
                assert(config[done] == (key@, value.deep_view()));
            }
            if value.len() != 0 {
                let group = ApiRouteRoulette::new(value);
                match position_of(&prefixes, &key) {
                    Some(at) => {
                        groups.set(at, group);
                        proof {
                            assert(group_views(groups@) == views.update(at as int, group@));
                            lemma_table_replace(names, views, at as int, group@);
                        }
                    },
                    None => {
                        prefixes.push(key);
                        groups.push(group);
                        proof {
                            assert(prefixes.deep_view() == names.push(key@));
                            assert(group_views(groups@) == views.push(group@));
                            lemma_table_push(names, views, key@, group@);
                        }
                    },
                }
            }
        }
        assert(config.take(entries.len() as int) == config);
        RedirectionReader { prefixes, groups }
    }

    /// The position of the entry under which `uri` is routed.
    fn find(&self, uri: &str) -> (r: Option<usize>)
        ensures
            match r {
                Some(i) => {
                    &&& i < self.prefixes.len()
                    &&& i < self.groups.len()
                    &&& self.groups@[i as int]@.len() > 0
                    &&& best_route(self@, uri@) == Some(self.prefixes@[i as int]@)
                    &&& self.prefixes@[i as int]@.is_prefix_of(uri@)
                    &&& self@.contains_key(self.prefixes@[i as int]@)
                    &&& self@[self.prefixes@[i as int]@] == self.groups@[i as int]@
                },
                None => {
                    &&& best_route(self@, uri@) is None
                    &&& forall|q: Seq<char>| !is_route(self@, uri@, q)
                },
            },
    {
        proof {
            use_type_invariant(self);
        }
        let found = longest_match(&self.prefixes, uri);
        proof {
            let names = self.prefixes.deep_view();
            let views = group_views(self.groups@);
            match found {
                Some(i) => {
                    lemma_match_is_route(names, views, uri@, Some(i as int));
                    lemma_best_route_is(self@, uri@, names[i as int]);
                    lemma_position_in_distinct(names, i as int);
                },
                None => {
                    lemma_match_is_route(names, views, uri@, None);
                },
            }
        }
        found
    }

    /// The registered prefix under which `uri` is routed: the longest one
    /// that `uri` begins with.
    pub fn match_prefix(&self, uri: &str) -> (r: Option<String>)
        ensures
            match r {
                Some(prefix) => {
                    &&& best_route(self@, uri@) == Some(prefix@)
                    &&& is_best_route(self@, uri@, prefix@)
                    &&& self@[prefix@].len() > 0
                },
                None => best_route(self@, uri@) is None,
            },
            r is None <==> forall|q: Seq<char>| !is_route(self@, uri@, q),
    {
        match self.find(uri) {
            Some(i) => Some(self.prefixes[i].clone()),
            None => None,
        }
    }

    /// Resolves `uri` with a given ticket: the best route's length, and the
    /// backend that `ticket` selects in its group.
    pub fn resolve_with(&self, uri: &str, ticket: usize) -> (r: Option<ResolvedTarget>)
        ensures
            match r {
                Some(target) => {
                    &&& best_route(self@, uri@) matches Some(prefix)
                    &&& target.matched == prefix.len()
                    &&& target.backend@ == self@[prefix][slot_of(ticket, self@[prefix].len())]
                },
                None => best_route(self@, uri@) is None,
            },
            r is None <==> forall|q: Seq<char>| !is_route(self@, uri@, q),
    {
        match self.find(uri) {
            Some(i) => {
                let matched: usize = self.prefixes[i].as_str().unicode_len();
                let backend = self.groups[i].select(ticket);
                Some(ResolvedTarget { matched, backend })
            },
            None => None,
        }
    }

    /// Resolves `uri`: the best route's length, and the backend that the
    /// next draw from its group selects.
    pub fn resolve(&self, uri: &str) -> (r: Option<ResolvedTarget>)
        ensures
            match r {
                Some(target) => {
                    &&& best_route(self@, uri@) matches Some(prefix)
                    &&& target.matched == prefix.len()
                    &&& self@[prefix].contains(target.backend@)
                    &&& exists|ticket: usize|
                        target.backend@ == self@[prefix][#[trigger] slot_of(
                            ticket,
                            self@[prefix].len(),
                        )]
                },
                None => best_route(self@, uri@) is None,
            },
            r is None <==> forall|q: Seq<char>| !is_route(self@, uri@, q),
    {
        match self.find(uri) {
            Some(i) => {
                let matched: usize = self.prefixes[i].as_str().unicode_len();
                let backend = self.groups[i].next();
                Some(ResolvedTarget { matched, backend })
            },
            None => None,
        }
    }

    /// The URL to which `uri` is forwarded when its draw receives `ticket`.
    pub fn match_uri_with(&self, uri: &String, ticket: usize) -> (r: Option<String>)
        ensures
            match r {
                Some(url) => target_url(self@, uri@, ticket) == Some(url@),
                None => target_url(self@, uri@, ticket) is None,
            },
            r is None <==> forall|q: Seq<char>| !is_route(self@, uri@, q),
    {
        match self.resolve_with(uri.as_str(), ticket) {
            Some(target) => Some(forward_url(&target, uri.as_str())),
            None => None,
        }
    }

    /// The URL to which `uri` is forwarded: a backend of the best route's
    /// group, chosen by the next draw, followed by what `uri` holds behind
    /// the prefix. `None` when no registered prefix begins `uri`.
    pub fn match_uri(&self, uri: &String) -> (r: Option<String>)
        ensures
            match r {
                Some(url) => exists|ticket: usize|
                    #[trigger] target_url(self@, uri@, ticket) == Some(url@),
                None => best_route(self@, uri@) is None,
            },
            r is None <==> forall|q: Seq<char>| !is_route(self@, uri@, q),
    {
        match self.resolve(uri.as_str()) {
            Some(target) => {
                let url = forward_url(&target, uri.as_str());
                proof {
                    let prefix = best_route(self@, uri@)->0;
                    let ticket = choose|ticket: usize|
                        target.backend@ == self@[prefix][#[trigger] slot_of(
                            ticket,
                            self@[prefix].len(),
                        )];
                    assert(target_url(self@, uri@, ticket) == Some(url@));
                }
                Some(url)
            },
            None => None,
        }
    }
}

/// Building is repeatable: two tables built from one configuration route
/// every path under the same prefix, to the same group of candidates, and
/// with equal tickets to the same URL. Which backend a draw selects may
/// differ between them, for each table has cursors of its own.
pub proof fn lemma_rebuilt_table_routes_alike(
    first: RedirectionReader,
    second: RedirectionReader,
    entries: Seq<(Seq<char>, Seq<Seq<char>>)>,
    path: Seq<char>,
    ticket: usize,
)
    requires
        first@ == route_map(entries),
        second@ == route_map(entries),
    ensures
        first@ == second@,
        best_route(first@, path) == best_route(second@, path),
        best_route(first@, path) matches Some(prefix) ==> first@[prefix] == second@[prefix],
        target_url(first@, path, ticket) == target_url(second@, path, ticket),
{
}

} // verus!
