//! The routing table in its simplest form: one backend for each prefix.

use crate::config::routes::{is_route, lemma_route_map_holds, route_map, target_url};
use crate::config::rotation::slot_of;
use vstd::prelude::*;
use vstd::std_specs::iter::IteratorSpec;

verus! {

/// The configuration in which every prefix of `entries` has its one
/// backend as a group of its own.
pub open spec fn singles(entries: Seq<(Seq<char>, Seq<char>)>) -> Seq<
    (Seq<char>, Seq<Seq<char>>),
> {
    Seq::new(entries.len(), |i: int| (entries[i].0, seq![entries[i].1]))
}

/// A routing table with a single backend for each prefix.
///
/// Its view is that of the table whose groups hold one backend each, so a
/// path is always forwarded to the same URL.
pub struct RedirectionReader {
    table: crate::config::app_config::RedirectionReader,
}

impl View for RedirectionReader {
    type V = Map<Seq<char>, Seq<Seq<char>>>;

    closed spec fn view(&self) -> Map<Seq<char>, Seq<Seq<char>>> {
        self.table@
    }
}

impl RedirectionReader {
    #[verifier::type_invariant]
    spec fn well_formed(&self) -> bool {
        forall|prefix: Seq<char>|
            self.table@.contains_key(prefix) ==> (#[trigger] self.table@[prefix]).len() == 1
    }

    /// Builds the table that `map` describes: each prefix with its
    /// backend, a later entry for a prefix replacing an earlier one.
    pub fn new(map: Vec<(String, String)>) -> (r: Self)
        ensures
            r@ == route_map(singles(map.deep_view())),
    {
        let ghost config = map.deep_view();
        let ghost entries = map@;
        let mut groups: Vec<(String, Vec<String>)> = Vec::new();
        for entry in rest: map
            invariant
                rest.seq() == entries,
                config.len() == entries.len(),
                forall|i: int|
                    0 <= i < entries.len() ==> #[trigger] config[i] == (
                        entries[i].0@,
                        entries[i].1@,
                    ),
                groups.deep_view() =~~= singles(config).take(rest.index() as int),
        {
            let (prefix, backend) = entry;
            let mut group: Vec<String> = Vec::new();
            group.push(backend);
            assert(group.deep_view() =~= seq![backend@]);
            groups.push((prefix, group));
        }
        assert(groups.deep_view() =~~= singles(config));
        let table = crate::config::app_config::RedirectionReader::new(groups);
        assert forall|prefix: Seq<char>| table@.contains_key(prefix) implies (#[trigger] table@[prefix]).len()
            == 1 by {
            lemma_route_map_holds(singles(config), prefix);
        }
        RedirectionReader { table }
    }

    /// The URL to which `uri` is forwarded: the backend of the longest
    /// registered prefix that `uri` begins with, followed by what `uri`
    /// holds behind that prefix. `None` when no registered prefix begins
    /// `uri`.
    pub fn match_uri(&self, uri: &String) -> (r: Option<String>)
        ensures
            match r {
                Some(url) => target_url(self@, uri@, 0) == Some(url@),
                None => target_url(self@, uri@, 0) is None,
            },
            r is None <==> forall|q: Seq<char>| !is_route(self@, uri@, q),
    {
        proof {
            use_type_invariant(self);
        }
        let r = self.table.match_uri(uri);
        proof {
            if r is Some {
                let url = r->0;
                let ticket = choose|ticket: usize|
                    #[trigger] target_url(self@, uri@, ticket) == Some(url@);
                assert(slot_of(ticket, 1) == slot_of(0, 1));
            }
        }
        r
    }
}

/// In a table of single backends the draw does not matter: every ticket
/// forwards a path to the same URL.
pub proof fn lemma_single_backend_ignores_ticket(
    entries: Seq<(Seq<char>, Seq<char>)>,
    path: Seq<char>,
    ticket: usize,
)
    ensures
        target_url(route_map(singles(entries)), path, ticket) == target_url(
            route_map(singles(entries)),
            path,
            0,
        ),
{
    let table = route_map(singles(entries));
    assert forall|prefix: Seq<char>| table.contains_key(prefix) implies (#[trigger] table[prefix]).len()
        == 1 by {
        lemma_route_map_holds(singles(entries), prefix);
    }
    assert(slot_of(ticket, 1) == slot_of(0, 1));
}

} // verus!
