//! The model of routing: the table that a configuration describes, the
//! route under which a path is resolved, the URL it is forwarded to, and
//! the laws that hold of them.

use crate::config::rotation::slot_of;
use vstd::prelude::*;

verus! {

/// The table that a configuration describes: its entries are taken in
/// order, an entry without backends is passed over, and a later entry for
/// a prefix replaces an earlier one.
pub open spec fn route_map(entries: Seq<(Seq<char>, Seq<Seq<char>>)>) -> Map<
    Seq<char>,
    Seq<Seq<char>>,
>
    decreases entries.len(),
{
    if entries.len() == 0 {
        Map::empty()
    } else {
        let earlier = route_map(entries.drop_last());
        let (prefix, backends) = entries.last();
        if backends.len() == 0 {
            earlier
        } else {
            earlier.insert(prefix, backends)
        }
    }
}

/// The prefixes of the entries of a configuration that name no backend,
/// in the order of the entries. Such entries register nothing.
pub open spec fn ignored_prefixes(entries: Seq<(Seq<char>, Seq<Seq<char>>)>) -> Seq<Seq<char>>
    decreases entries.len(),
{
    if entries.len() == 0 {
        Seq::empty()
    } else {
        let earlier = ignored_prefixes(entries.drop_last());
        if entries.last().1.len() == 0 {
            earlier.push(entries.last().0)
        } else {
            earlier
        }
    }
}

/// Every group of `table` holds at least one backend.
pub open spec fn has_no_empty_group(table: Map<Seq<char>, Seq<Seq<char>>>) -> bool {
    forall|prefix: Seq<char>| table.contains_key(prefix) ==> (#[trigger] table[prefix]).len() > 0
}

/// `prefix` is registered in `table` and `path` begins with it.
pub open spec fn is_route(
    table: Map<Seq<char>, Seq<Seq<char>>>,
    path: Seq<char>,
    prefix: Seq<char>,
) -> bool {
    table.contains_key(prefix) && prefix.is_prefix_of(path)
}

/// `prefix` is a route for `path`, and no route for `path` is longer.
pub open spec fn is_best_route(
    table: Map<Seq<char>, Seq<Seq<char>>>,
    path: Seq<char>,
    prefix: Seq<char>,
) -> bool {
    &&& is_route(table, path, prefix)
    &&& forall|other: Seq<char>| is_route(table, path, other) ==> other.len() <= prefix.len()
}

/// The prefix under which `path` is routed: the longest registered prefix
/// that `path` begins with, or `None` when it begins with none.
pub open spec fn best_route(table: Map<Seq<char>, Seq<Seq<char>>>, path: Seq<char>) -> Option<
    Seq<char>,
> {
    if exists|prefix: Seq<char>| is_best_route(table, path, prefix) {
        Some(choose|prefix: Seq<char>| is_best_route(table, path, prefix))
    } else {
        None
    }
}

/// What is left of `path` behind its first `matched` characters; nothing
/// where `path` is shorter than that.
pub open spec fn suffix_after(path: Seq<char>, matched: int) -> Seq<char> {
    if 0 <= matched <= path.len() {
        path.skip(matched)
    } else {
        Seq::empty()
    }
}

/// The URL to which a request for `path` is forwarded when its draw
/// receives `ticket`: the backend that the ticket selects in the group of
/// the best route, followed by what `path` holds behind the prefix.
pub open spec fn target_url(
    table: Map<Seq<char>, Seq<Seq<char>>>,
    path: Seq<char>,
    ticket: usize,
) -> Option<Seq<char>> {
    match best_route(table, path) {
        Some(prefix) => Some(
            table[prefix][slot_of(ticket, table[prefix].len())] + suffix_after(
                path,
                prefix.len() as int,
            ),
        ),
        None => None,
    }
}

/// Two best routes for one path are the same prefix.
pub proof fn lemma_best_route_unique(
    table: Map<Seq<char>, Seq<Seq<char>>>,
    path: Seq<char>,
    a: Seq<char>,
    b: Seq<char>,
)
    requires
        is_best_route(table, path, a),
        is_best_route(table, path, b),
    ensures
        a == b,
{
    assert(a.len() == b.len());
    assert(a =~= b);
}

/// A best route is the route that `best_route` names.
pub proof fn lemma_best_route_is(
    table: Map<Seq<char>, Seq<Seq<char>>>,
    path: Seq<char>,
    prefix: Seq<char>,
)
    requires
        is_best_route(table, path, prefix),
    ensures
        best_route(table, path) == Some(prefix),
{
    let chosen = choose|p: Seq<char>| is_best_route(table, path, p);
    lemma_best_route_unique(table, path, chosen, prefix);
}

/// Above any route for a path stands a best route, at least as long.
pub proof fn lemma_route_has_best(
    table: Map<Seq<char>, Seq<Seq<char>>>,
    path: Seq<char>,
    prefix: Seq<char>,
)
    requires
        is_route(table, path, prefix),
    ensures
        best_route(table, path) matches Some(best) && is_best_route(table, path, best)
            && prefix.len() <= best.len(),
    decreases path.len() - prefix.len(),
{
    if forall|other: Seq<char>| is_route(table, path, other) ==> other.len() <= prefix.len() {
        lemma_best_route_is(table, path, prefix);
    } else {
        let other = choose|other: Seq<char>|
            is_route(table, path, other) && other.len() > prefix.len();
        lemma_route_has_best(table, path, other);
    }
}

/// A path that begins with a registered prefix is resolved, under a
/// prefix at least as long.
pub proof fn lemma_routed_path_is_resolved(
    table: Map<Seq<char>, Seq<Seq<char>>>,
    path: Seq<char>,
    prefix: Seq<char>,
    ticket: usize,
)
    requires
        is_route(table, path, prefix),
    ensures
        target_url(table, path, ticket) is Some,
        best_route(table, path) matches Some(best) && is_best_route(table, path, best)
            && prefix.len() <= best.len(),
{
    lemma_route_has_best(table, path, prefix);
}

/// Resolution follows the prefix: a path whose longest registered prefix
/// is `prefix` is forwarded to a backend drawn from the group of `prefix`,
/// followed by what the path holds behind `prefix`.
pub proof fn lemma_target_drawn_from_group(
    table: Map<Seq<char>, Seq<Seq<char>>>,
    path: Seq<char>,
    prefix: Seq<char>,
    ticket: usize,
)
    requires
        is_best_route(table, path, prefix),
        has_no_empty_group(table),
    ensures
        exists|i: int|
            0 <= i < table[prefix].len() && target_url(table, path, ticket) == Some(
                #[trigger] table[prefix][i] + path.skip(prefix.len() as int),
            ),
{
    lemma_best_route_is(table, path, prefix);
    let i = slot_of(ticket, table[prefix].len());
    assert(0 <= i < table[prefix].len());
    assert(target_url(table, path, ticket) == Some(
        table[prefix][i] + path.skip(prefix.len() as int),
    ));
}

/// A path that begins with no registered prefix is not resolved.
pub proof fn lemma_unmatched_path_has_no_target(
    table: Map<Seq<char>, Seq<Seq<char>>>,
    path: Seq<char>,
    ticket: usize,
)
    requires
        forall|prefix: Seq<char>| !is_route(table, path, prefix),
    ensures
        best_route(table, path) is None,
        target_url(table, path, ticket) is None,
{
}

/// The longest prefix wins: where two registered prefixes begin a path,
/// the path is not routed under the shorter one, and where the longer one
/// is the longest of all, the path is routed under it.
pub proof fn lemma_longest_prefix_wins(
    table: Map<Seq<char>, Seq<Seq<char>>>,
    path: Seq<char>,
    shorter: Seq<char>,
    longer: Seq<char>,
)
    requires
        is_route(table, path, shorter),
        is_route(table, path, longer),
        shorter.len() < longer.len(),
    ensures
        best_route(table, path) matches Some(best) && best != shorter && longer.len()
            <= best.len(),
        is_best_route(table, path, longer) ==> best_route(table, path) == Some(longer),
{
    lemma_route_has_best(table, path, longer);
    if is_best_route(table, path, longer) {
        lemma_best_route_is(table, path, longer);
    }
}

/// A prefix is registered exactly when the configuration holds an entry
/// for it with at least one backend; its group is then that of the last
/// such entry, and so is never empty.
pub proof fn lemma_route_map_holds(entries: Seq<(Seq<char>, Seq<Seq<char>>)>, prefix: Seq<char>)
    ensures
        route_map(entries).contains_key(prefix) <==> exists|i: int|
            0 <= i < entries.len() && (#[trigger] entries[i]).0 == prefix && entries[i].1.len()
                > 0,
        route_map(entries).contains_key(prefix) ==> route_map(entries)[prefix].len() > 0
            && exists|i: int|
            0 <= i < entries.len() && #[trigger] entries[i] == (
                prefix,
                route_map(entries)[prefix],
            ) && forall|j: int|
                i < j < entries.len() && (#[trigger] entries[j]).0 == prefix ==> entries[j].1.len()
                    == 0,
    decreases entries.len(),
{
    if entries.len() > 0 {
        let earlier = entries.drop_last();
        let last = entries.len() - 1;
        lemma_route_map_holds(earlier, prefix);
        assert(forall|i: int| 0 <= i < earlier.len() ==> earlier[i] == entries[i]);
        if entries[last].0 == prefix && entries[last].1.len() > 0 {
            assert(entries[last] == (prefix, route_map(entries)[prefix]));
        } else if route_map(entries).contains_key(prefix) {
            assert(route_map(earlier).contains_key(prefix));
            let i = choose|i: int|
                0 <= i < earlier.len() && #[trigger] earlier[i] == (
                    prefix,
                    route_map(earlier)[prefix],
                ) && forall|j: int|
                    i < j < earlier.len() && (#[trigger] earlier[j]).0 == prefix
                        ==> earlier[j].1.len() == 0;
            assert(entries[i] == (prefix, route_map(entries)[prefix]));
            assert forall|j: int|
                i < j < entries.len() && (#[trigger] entries[j]).0 == prefix implies entries[j].1.len()
                == 0 by {
                if j < last {
                    assert(earlier[j] == entries[j]);
                }
            }
        }
    }
}

/// The table of a configuration has no empty group.
pub proof fn lemma_route_map_has_no_empty_group(entries: Seq<(Seq<char>, Seq<Seq<char>>)>)
    ensures
        has_no_empty_group(route_map(entries)),
{
    assert forall|prefix: Seq<char>| route_map(entries).contains_key(prefix) implies (
    #[trigger] route_map(entries)[prefix]).len() > 0 by {
        lemma_route_map_holds(entries, prefix);
    }
}

/// Entries without backends register nothing: where every entry for
/// `prefix` has an empty group, `prefix` is not in the table; where every
/// entry of the configuration has an empty group, no path is resolved.
pub proof fn lemma_empty_groups_are_excluded(
    entries: Seq<(Seq<char>, Seq<Seq<char>>)>,
    prefix: Seq<char>,
    path: Seq<char>,
    ticket: usize,
)
    requires
        forall|i: int|
            0 <= i < entries.len() && (#[trigger] entries[i]).0 == prefix ==> entries[i].1.len()
                == 0,
    ensures
        !route_map(entries).contains_key(prefix),
        !is_route(route_map(entries), path, prefix),
        (forall|i: int| 0 <= i < entries.len() ==> (#[trigger] entries[i]).1.len() == 0) ==> {
            &&& route_map(entries) == Map::<Seq<char>, Seq<Seq<char>>>::empty()
            &&& target_url(route_map(entries), path, ticket) is None
        },
{
    lemma_route_map_holds(entries, prefix);
    if forall|i: int| 0 <= i < entries.len() ==> (#[trigger] entries[i]).1.len() == 0 {
        assert forall|p: Seq<char>| !route_map(entries).contains_key(p) by {
            lemma_route_map_holds(entries, p);
        }
        assert(route_map(entries) =~= Map::<Seq<char>, Seq<Seq<char>>>::empty());
    }
}

} // verus!
