//! Walking the ancestry of a commit: every commit that it reaches, each
//! once, with the shallow boundary treated as the end of history.

use vstd::prelude::*;
use crate::error::Error;
use crate::graph::{
    clone_ids, id_models, lemma_closed_set_holds_reached, lemma_reaches_itself, lemma_reaches_link,
    links, path_between, position, reaches, unresolved, walkable, CommitGraph, CommitNode,
    NodeModel, ShallowBoundary,
};
use crate::object_id::ObjectId;

verus! {

/// The rank of commits without a generation number: above every generation.
pub const NO_GENERATION: u64 = 4294967296;

/// The rank by which a walk orders the commits it has yet to visit: the
/// generation number, or [`NO_GENERATION`] for a commit without one.
pub open spec fn rank(graph: Map<Seq<u8>, NodeModel>, id: Seq<u8>) -> int {
    if graph.contains_key(id) {
        match graph[id].generation {
            Some(generation) => generation as int,
            None => NO_GENERATION as int,
        }
    } else {
        NO_GENERATION as int
    }
}

/// The commit as a walk hands it out: as the graph holds it, or, for a
/// commit of the boundary that the graph does not hold, as a commit without
/// parents.
pub open spec fn walked_node(graph: Map<Seq<u8>, NodeModel>, id: Seq<u8>) -> NodeModel {
    if graph.contains_key(id) {
        graph[id]
    } else {
        NodeModel { id, parents: Seq::empty(), generation: None }
    }
}

/// The ids of a sequence of commits.
pub open spec fn node_id_models(nodes: Seq<CommitNode>) -> Seq<Seq<u8>> {
    nodes.map_values(|node: CommitNode| node.id@)
}

/// Every commit has a higher rank than each of the parents that a walk
/// follows from it, as generation numbers are meant to give it.
pub open spec fn generations_descend(graph: Map<Seq<u8>, NodeModel>, boundary: Set<Seq<u8>>) -> bool {
    forall|id: Seq<u8>, parent: Seq<u8>| #[trigger]
        links(graph, boundary, id).contains(parent) ==> rank(graph, parent) < rank(graph, id)
}

/// No commit of the sequence has a higher rank than one before it.
pub open spec fn ranks_descend(graph: Map<Seq<u8>, NodeModel>, ids: Seq<Seq<u8>>) -> bool {
    forall|i: int, j: int| 0 <= i < j < ids.len() ==> rank(graph, ids[i]) >= rank(graph, ids[j])
}

/// `start` reaches more than `n` commits.
pub open spec fn reaches_more_than(
    graph: Map<Seq<u8>, NodeModel>,
    boundary: Set<Seq<u8>>,
    start: Seq<u8>,
    n: int,
) -> bool {
    exists|ids: Seq<Seq<u8>>|
        #![trigger ids.no_duplicates()]
        ids.no_duplicates() && ids.len() > n && forall|i: int|
            0 <= i < ids.len() ==> reaches(graph, boundary, start, #[trigger] ids[i])
}

#[verifier::opaque]
spec fn sound(
    graph: Map<Seq<u8>, NodeModel>,
    boundary: Set<Seq<u8>>,
    start: Seq<u8>,
    ids: Seq<Seq<u8>>,
) -> bool {
    forall|i: int|
        0 <= i < ids.len() ==> reaches(graph, boundary, start, #[trigger] ids[i]) && !unresolved(
            graph,
            boundary,
            ids[i],
        )
}

#[verifier::opaque]
spec fn apart(visited: Seq<Seq<u8>>, frontier: Seq<Seq<u8>>) -> bool {
    &&& visited.no_duplicates()
    &&& frontier.no_duplicates()
    &&& forall|i: int, j: int|
        0 <= i < visited.len() && 0 <= j < frontier.len() ==> visited[i] != frontier[j]
}

spec fn known(visited: Seq<Seq<u8>>, frontier: Seq<Seq<u8>>, id: Seq<u8>) -> bool {
    visited.contains(id) || frontier.contains(id)
}

#[verifier::opaque]
spec fn closed_upto(
    graph: Map<Seq<u8>, NodeModel>,
    boundary: Set<Seq<u8>>,
    visited: Seq<Seq<u8>>,
    frontier: Seq<Seq<u8>>,
    n: int,
) -> bool {
    forall|i: int, next: Seq<u8>|
        0 <= i < n && #[trigger] links(graph, boundary, visited[i]).contains(next) ==> known(
            visited,
            frontier,
            next,
        )
}

/// What holds while a walk is under way: no commit was found twice, every
/// commit found is reached by the start and can be read, and the links of
/// the first `n` visited commits have all been found.
spec fn under_way(
    graph: Map<Seq<u8>, NodeModel>,
    boundary: Set<Seq<u8>>,
    start: Seq<u8>,
    visited: Seq<Seq<u8>>,
    frontier: Seq<Seq<u8>>,
    n: int,
) -> bool {
    &&& apart(visited, frontier)
    &&& sound(graph, boundary, start, visited)
    &&& sound(graph, boundary, start, frontier)
    &&& closed_upto(graph, boundary, visited, frontier, n)
    &&& known(visited, frontier, start)
}

/// A walk begins with its start in the frontier.
proof fn lemma_begin(graph: Map<Seq<u8>, NodeModel>, boundary: Set<Seq<u8>>, start: Seq<u8>)
    requires
        !unresolved(graph, boundary, start),
    ensures
        under_way(graph, boundary, start, Seq::empty(), seq![start], 0),
{
    reveal(sound);
    reveal(apart);
    reveal(closed_upto);
    lemma_reaches_itself(graph, boundary, start);
    assert(seq![start][0] == start);
}

/// Commits that differ from each other and can all be read are no more than
/// the graph and the boundary hold together.
proof fn lemma_discovered_bound(
    graph: Map<Seq<u8>, NodeModel>,
    boundary: Set<Seq<u8>>,
    start: Seq<u8>,
    visited: Seq<Seq<u8>>,
    frontier: Seq<Seq<u8>>,
    n: int,
)
    requires
        graph.dom().finite(),
        boundary.finite(),
        under_way(graph, boundary, start, visited, frontier, n),
    ensures
        visited.len() + frontier.len() <= graph.dom().len() + boundary.len(),
{
    reveal(sound);
    reveal(apart);
    let all = visited + frontier;
    let universe = graph.dom().union(boundary);
    vstd::seq_lib::lemma_no_dup_in_concat(visited, frontier);
    all.unique_seq_to_set();
    assert forall|id: Seq<u8>| all.to_set().contains(id) implies universe.contains(id) by {
        let k = choose|k: int| 0 <= k < all.len() && all[k] == id;
        if k < visited.len() {
            assert(all[k] == visited[k]);
        } else {
            assert(all[k] == frontier[k - visited.len()]);
        }
    }
    vstd::set_lib::lemma_len_union(graph.dom(), boundary);
    vstd::set_lib::lemma_len_subset(all.to_set(), universe);
}

/// Moving a commit from the frontier to the end of the visited keeps the
/// walk under way.
proof fn lemma_visit(
    graph: Map<Seq<u8>, NodeModel>,
    boundary: Set<Seq<u8>>,
    start: Seq<u8>,
    visited: Seq<Seq<u8>>,
    frontier: Seq<Seq<u8>>,
    m: int,
)
    requires
        0 <= m < frontier.len(),
        under_way(graph, boundary, start, visited, frontier, visited.len() as int),
    ensures
        under_way(
            graph,
            boundary,
            start,
            visited.push(frontier[m]),
            frontier.remove(m),
            visited.len() as int,
        ),
        reaches(graph, boundary, start, frontier[m]),
{
    reveal(sound);
    reveal(apart);
    reveal(closed_upto);
    let x = frontier[m];
    let after = visited.push(x);
    let rest = frontier.remove(m);
    assert forall|j: int| 0 <= j < rest.len() implies #[trigger] rest[j] == frontier[if j < m {
        j
    } else {
        j + 1
    }] by {}
    assert forall|id: Seq<u8>| known(visited, frontier, id) implies known(after, rest, id) by {
        if visited.contains(id) {
            let k = choose|k: int| 0 <= k < visited.len() && visited[k] == id;
            assert(after[k] == id);
        } else {
            let k = choose|k: int| 0 <= k < frontier.len() && frontier[k] == id;
            if k == m {
                assert(after[visited.len() as int] == id);
            } else if k < m {
                assert(rest[k] == id);
            } else {
                assert(rest[k - 1] == id);
            }
        }
    }
    assert forall|i: int, next: Seq<u8>|
        0 <= i < visited.len() && #[trigger] links(graph, boundary, after[i]).contains(
            next,
        ) implies known(after, rest, next) by {
        assert(after[i] == visited[i]);
        assert(known(visited, frontier, next));
    }
    assert forall|i: int, j: int| 0 <= i < after.len() && 0 <= j < rest.len() implies after[i]
        != rest[j] by {
        let j0 = if j < m {
            j
        } else {
            j + 1
        };
        assert(rest[j] == frontier[j0]);
        if i < visited.len() {
            assert(after[i] == visited[i]);
        }
    }
    assert forall|i: int, j: int|
        0 <= i < after.len() && 0 <= j < after.len() && i != j implies after[i] != after[j] by {
        if i < visited.len() && j < visited.len() {
        } else if i < visited.len() {
            assert(visited[i] != frontier[m]);
        } else {
            assert(visited[j] != frontier[m]);
        }
    }
    assert forall|i: int| 0 <= i < after.len() implies reaches(
        graph,
        boundary,
        start,
        #[trigger] after[i],
    ) && !unresolved(graph, boundary, after[i]) by {
        if i < visited.len() {
            assert(after[i] == visited[i]);
        }
    }
}

/// A commit that is new, reached and can be read may join the frontier.
proof fn lemma_discover(
    graph: Map<Seq<u8>, NodeModel>,
    boundary: Set<Seq<u8>>,
    start: Seq<u8>,
    visited: Seq<Seq<u8>>,
    frontier: Seq<Seq<u8>>,
    id: Seq<u8>,
    n: int,
)
    requires
        under_way(graph, boundary, start, visited, frontier, n),
        !known(visited, frontier, id),
        reaches(graph, boundary, start, id),
        !unresolved(graph, boundary, id),
    ensures
        under_way(graph, boundary, start, visited, frontier.push(id), n),
        known(visited, frontier.push(id), id),
        forall|other: Seq<u8>|
            known(visited, frontier, other) ==> known(visited, frontier.push(id), other),
{
    reveal(sound);
    reveal(apart);
    reveal(closed_upto);
    let more = frontier.push(id);
    assert forall|other: Seq<u8>| known(visited, frontier, other) implies known(
        visited,
        more,
        other,
    ) by {
        if frontier.contains(other) {
            let k = choose|k: int| 0 <= k < frontier.len() && frontier[k] == other;
            assert(more[k] == other);
        }
    }
    assert(more[frontier.len() as int] == id);
    assert forall|i: int, j: int| 0 <= i < visited.len() && 0 <= j < more.len() implies visited[i]
        != more[j] by {
        if j == frontier.len() {
            if visited[i] == id {
                assert(visited.contains(id));
            }
        }
    }
    assert forall|i: int, j: int| 0 <= i < more.len() && 0 <= j < more.len() && i != j implies more[i]
        != more[j] by {
        if i == frontier.len() {
            if frontier[j] == id {
                assert(frontier.contains(id));
            }
        } else if j == frontier.len() {
            if frontier[i] == id {
                assert(frontier.contains(id));
            }
        }
    }
    assert forall|i: int| 0 <= i < more.len() implies reaches(
        graph,
        boundary,
        start,
        #[trigger] more[i],
    ) && !unresolved(graph, boundary, more[i]) by {
        if i < frontier.len() {
            assert(more[i] == frontier[i]);
        }
    }
}

/// Once all links of the commit visited last are found, the links of all
/// visited commits are.
proof fn lemma_close_last(
    graph: Map<Seq<u8>, NodeModel>,
    boundary: Set<Seq<u8>>,
    start: Seq<u8>,
    visited: Seq<Seq<u8>>,
    frontier: Seq<Seq<u8>>,
)
    requires
        visited.len() > 0,
        under_way(graph, boundary, start, visited, frontier, visited.len() - 1),
        forall|q: int|
            0 <= q < links(graph, boundary, visited.last()).len() ==> known(
                visited,
                frontier,
                #[trigger] links(graph, boundary, visited.last())[q],
            ),
    ensures
        under_way(graph, boundary, start, visited, frontier, visited.len() as int),
{
    reveal(closed_upto);
    let last = links(graph, boundary, visited.last());
    assert forall|i: int, next: Seq<u8>|
        0 <= i < visited.len() && #[trigger] links(graph, boundary, visited[i]).contains(
            next,
        ) implies known(visited, frontier, next) by {
        if i == visited.len() - 1 {
            let q = choose|q: int| 0 <= q < last.len() && last[q] == next;
            assert(known(visited, frontier, last[q]));
        }
    }
}

/// A walk that has nothing left to visit has visited exactly what its start
/// reaches, and all of that can be read.
proof fn lemma_finished(
    graph: Map<Seq<u8>, NodeModel>,
    boundary: Set<Seq<u8>>,
    start: Seq<u8>,
    visited: Seq<Seq<u8>>,
    frontier: Seq<Seq<u8>>,
)
    requires
        frontier.len() == 0,
        under_way(graph, boundary, start, visited, frontier, visited.len() as int),
    ensures
        visited.no_duplicates(),
        forall|id: Seq<u8>| visited.contains(id) <==> reaches(graph, boundary, start, id),
        walkable(graph, boundary, start),
{
    reveal(sound);
    reveal(apart);
    reveal(closed_upto);
    let closed = Set::new(|id: Seq<u8>| visited.contains(id));
    assert forall|id: Seq<u8>, next: Seq<u8>|
        closed.contains(id) && #[trigger] links(graph, boundary, id).contains(
            next,
        ) implies closed.contains(next) by {
        let i = choose|i: int| 0 <= i < visited.len() && visited[i] == id;
        assert(links(graph, boundary, visited[i]).contains(next));
        assert(known(visited, frontier, next));
    }
    assert forall|id: Seq<u8>| reaches(graph, boundary, start, id) implies visited.contains(
        id,
    ) by {
        lemma_closed_set_holds_reached(graph, boundary, closed, start, id);
    }
    assert forall|id: Seq<u8>| visited.contains(id) implies reaches(graph, boundary, start, id) by {
        let i = choose|i: int| 0 <= i < visited.len() && visited[i] == id;
        assert(reaches(graph, boundary, start, visited[i]));
    }
    assert forall|id: Seq<u8>| reaches(graph, boundary, start, id) implies !unresolved(
        graph,
        boundary,
        id,
    ) by {
        assert(visited.contains(id));
        let i = choose|i: int| 0 <= i < visited.len() && visited[i] == id;
        assert(!unresolved(graph, boundary, visited[i]));
    }
}

/// A commit that is reached and cannot be read stops every walk.
proof fn lemma_not_walkable(
    graph: Map<Seq<u8>, NodeModel>,
    boundary: Set<Seq<u8>>,
    start: Seq<u8>,
    id: Seq<u8>,
)
    requires
        reaches(graph, boundary, start, id),
        unresolved(graph, boundary, id),
    ensures
        !walkable(graph, boundary, start),
{
}

/// Where generations descend, the visited commits come in descending rank
/// and no commit of the frontier outranks the one visited last.
#[verifier::opaque]
spec fn orderly(
    graph: Map<Seq<u8>, NodeModel>,
    boundary: Set<Seq<u8>>,
    visited: Seq<Seq<u8>>,
    frontier: Seq<Seq<u8>>,
) -> bool {
    generations_descend(graph, boundary) ==> {
        &&& ranks_descend(graph, visited)
        &&& visited.len() > 0 ==> forall|k: int|
            0 <= k < frontier.len() ==> rank(graph, #[trigger] frontier[k]) <= rank(
                graph,
                visited.last(),
            )
    }
}

proof fn lemma_begin_orderly(
    graph: Map<Seq<u8>, NodeModel>,
    boundary: Set<Seq<u8>>,
    start: Seq<u8>,
)
    ensures
        orderly(graph, boundary, Seq::empty(), seq![start]),
{
    reveal(orderly);
}

proof fn lemma_visit_orderly(
    graph: Map<Seq<u8>, NodeModel>,
    boundary: Set<Seq<u8>>,
    visited: Seq<Seq<u8>>,
    frontier: Seq<Seq<u8>>,
    m: int,
)
    requires
        0 <= m < frontier.len(),
        orderly(graph, boundary, visited, frontier),
        forall|k: int|
            0 <= k < frontier.len() ==> rank(graph, #[trigger] frontier[k]) <= rank(
                graph,
                frontier[m],
            ),
    ensures
        orderly(graph, boundary, visited.push(frontier[m]), frontier.remove(m)),
{
    reveal(orderly);
    let after = visited.push(frontier[m]);
    let rest = frontier.remove(m);
    if generations_descend(graph, boundary) {
        assert forall|i: int, j: int| 0 <= i < j < after.len() implies rank(graph, after[i])
            >= rank(graph, after[j]) by {
            if j < visited.len() {
                assert(after[i] == visited[i] && after[j] == visited[j]);
            } else {
                assert(after[i] == visited[i]);
                assert(rank(graph, visited[i]) >= rank(graph, visited.last()));
            }
        }
        assert forall|k: int| 0 <= k < rest.len() implies rank(graph, #[trigger] rest[k]) <= rank(
            graph,
            after.last(),
        ) by {
            assert(rest[k] == frontier[if k < m {
                k
            } else {
                k + 1
            }]);
        }
    }
}

proof fn lemma_discover_orderly(
    graph: Map<Seq<u8>, NodeModel>,
    boundary: Set<Seq<u8>>,
    visited: Seq<Seq<u8>>,
    frontier: Seq<Seq<u8>>,
    id: Seq<u8>,
)
    requires
        visited.len() > 0,
        orderly(graph, boundary, visited, frontier),
        links(graph, boundary, visited.last()).contains(id),
    ensures
        orderly(graph, boundary, visited, frontier.push(id)),
{
    reveal(orderly);
    let more = frontier.push(id);
    if generations_descend(graph, boundary) {
        assert forall|k: int| 0 <= k < more.len() implies rank(graph, #[trigger] more[k]) <= rank(
            graph,
            visited.last(),
        ) by {
            if k < frontier.len() {
                assert(more[k] == frontier[k]);
            }
        }
    }
}

proof fn lemma_finished_orderly(
    graph: Map<Seq<u8>, NodeModel>,
    boundary: Set<Seq<u8>>,
    visited: Seq<Seq<u8>>,
    frontier: Seq<Seq<u8>>,
)
    requires
        orderly(graph, boundary, visited, frontier),
    ensures
        generations_descend(graph, boundary) ==> ranks_descend(graph, visited),
{
    reveal(orderly);
}

/// A walk that still has a commit to visit has found more commits than it
/// has visited.
proof fn lemma_more_to_visit(
    graph: Map<Seq<u8>, NodeModel>,
    boundary: Set<Seq<u8>>,
    start: Seq<u8>,
    visited: Seq<Seq<u8>>,
    frontier: Seq<Seq<u8>>,
    n: int,
)
    requires
        frontier.len() > 0,
        under_way(graph, boundary, start, visited, frontier, n),
    ensures
        reaches_more_than(graph, boundary, start, visited.len() as int),
{
    reveal(sound);
    reveal(apart);
    let ids = visited.push(frontier[0]);
    assert forall|i: int, j: int| 0 <= i < ids.len() && 0 <= j < ids.len() && i != j implies ids[i]
        != ids[j] by {
        if i < visited.len() && j < visited.len() {
        } else if i < visited.len() {
            assert(visited[i] != frontier[0]);
        } else {
            assert(visited[j] != frontier[0]);
        }
    }
    assert forall|i: int| 0 <= i < ids.len() implies reaches(
        graph,
        boundary,
        start,
        #[trigger] ids[i],
    ) by {
        if i < visited.len() {
            assert(ids[i] == visited[i]);
        }
    }
    assert(ids.no_duplicates());
}

/// A walk that has visited all that its start reaches has visited no fewer
/// commits than any list of different commits that the start reaches.
proof fn lemma_no_more_than_visited(
    graph: Map<Seq<u8>, NodeModel>,
    boundary: Set<Seq<u8>>,
    start: Seq<u8>,
    visited: Seq<Seq<u8>>,
)
    requires
        forall|id: Seq<u8>| visited.contains(id) <==> reaches(graph, boundary, start, id),
    ensures
        !reaches_more_than(graph, boundary, start, visited.len() as int),
{
    if reaches_more_than(graph, boundary, start, visited.len() as int) {
        let ids = choose|ids: Seq<Seq<u8>>|
            #![trigger ids.no_duplicates()]
            ids.no_duplicates() && ids.len() > visited.len() && forall|i: int|
                0 <= i < ids.len() ==> reaches(graph, boundary, start, #[trigger] ids[i]);
        assert forall|id: Seq<u8>| ids.to_set().contains(id) implies visited.to_set().contains(
            id,
        ) by {
            let k = choose|k: int| 0 <= k < ids.len() && ids[k] == id;
            assert(reaches(graph, boundary, start, ids[k]));
        }
        ids.unique_seq_to_set();
        visited.lemma_cardinality_of_set();
        vstd::seq_lib::seq_to_set_is_finite(visited);
        vstd::set_lib::lemma_len_subset(ids.to_set(), visited.to_set());
    }
}

/// Whoever reaches more than `n` commits reaches more than any fewer.
pub proof fn lemma_reaches_more_than_fewer(
    graph: Map<Seq<u8>, NodeModel>,
    boundary: Set<Seq<u8>>,
    start: Seq<u8>,
    n: int,
    fewer: int,
)
    requires
        reaches_more_than(graph, boundary, start, n),
        fewer <= n,
    ensures
        reaches_more_than(graph, boundary, start, fewer),
{
    let ids = choose|ids: Seq<Seq<u8>>|
        #![trigger ids.no_duplicates()]
        ids.no_duplicates() && ids.len() > n && forall|i: int|
            0 <= i < ids.len() ==> reaches(graph, boundary, start, #[trigger] ids[i]);
    assert(ids.no_duplicates() && ids.len() > fewer);
}

/// The rank of a commit.
pub fn rank_of(graph: &CommitGraph, id: &ObjectId) -> (r: u64)
    ensures
        r == rank(graph@, id@),
{
    match graph.get(id) {
        Some(node) => match node.generation {
            Some(generation) => generation as u64,
            None => NO_GENERATION,
        },
        None => NO_GENERATION,
    }
}

/// Which commit of the frontier a walk visits next: the one of the highest
/// rank, and of several of that rank the one that has waited longest.
pub fn pick_next(graph: &CommitGraph, frontier: &Vec<ObjectId>) -> (m: usize)
    requires
        frontier@.len() > 0,
    ensures
        m < frontier@.len(),
        forall|k: int|
            0 <= k < frontier@.len() ==> rank(graph@, #[trigger] frontier@[k]@) <= rank(
                graph@,
                frontier@[m as int]@,
            ),
        forall|k: int|
            0 <= k < m ==> rank(graph@, #[trigger] frontier@[k]@) < rank(
                graph@,
                frontier@[m as int]@,
            ),
{
    let mut m: usize = 0;
    let mut best = rank_of(graph, &frontier[0]);
    let mut i: usize = 1;
    while i < frontier.len()
        invariant
            1 <= i <= frontier@.len(),
            m < i,
            best == rank(graph@, frontier@[m as int]@),
            forall|k: int| 0 <= k < i ==> rank(graph@, #[trigger] frontier@[k]@) <= best,
            forall|k: int| 0 <= k < m ==> rank(graph@, #[trigger] frontier@[k]@) < best,
        decreases frontier@.len() - i,
    {
        let r = rank_of(graph, &frontier[i]);
        if r > best {
            best = r;
            m = i;
        }
        i += 1;
    }
    m
}

/// The parents that a walk follows from `id`.
pub fn links_of(graph: &CommitGraph, boundary: &ShallowBoundary, id: &ObjectId) -> (parents: Vec<
    ObjectId,
>)
    ensures
        id_models(parents@) == links(graph@, boundary@, id@),
{
    if boundary.contains(id) {
        let none: Vec<ObjectId> = Vec::new();
        assert(id_models(none@) =~= Seq::<Seq<u8>>::empty());
        none
    } else {
        match graph.get(id) {
            Some(node) => clone_ids(&node.parents),
            None => {
                let none: Vec<ObjectId> = Vec::new();
                assert(id_models(none@) =~= Seq::<Seq<u8>>::empty());
                none
            },
        }
    }
}

/// Why a walk stopped before its end.
enum Stop {
    /// This commit is reached and cannot be read.
    Missing(ObjectId),
    /// More commits than allowed would have to be visited.
    TimedOut,
}

impl Stop {
    fn error(&self) -> (e: Error)
        ensures
            e == (match self {
                Stop::Missing(_) => Error::ObjectNotFound,
                Stop::TimedOut => Error::TimedOut,
            }),
    {
        match self {
            Stop::Missing(_) => Error::ObjectNotFound,
            Stop::TimedOut => Error::TimedOut,
        }
    }
}

/// The walk itself, with or without a limit on the commits it visits.
fn search(
    graph: &CommitGraph,
    boundary: &ShallowBoundary,
    start: &ObjectId,
    limit: Option<usize>,
) -> (walked: Result<Vec<ObjectId>, Stop>)
    ensures
        walked matches Err(stop) ==> match stop {
            Stop::Missing(id) => reaches(graph@, boundary@, start@, id@) && unresolved(
                graph@,
                boundary@,
                id@,
            ) && !walkable(graph@, boundary@, start@),
            Stop::TimedOut => limit is Some && reaches_more_than(
                graph@,
                boundary@,
                start@,
                limit->0 as int,
            ),
        },
        walked matches Ok(ids) ==> {
            &&& walkable(graph@, boundary@, start@)
            &&& id_models(ids@).no_duplicates()
            &&& forall|id: Seq<u8>|
                id_models(ids@).contains(id) <==> reaches(graph@, boundary@, start@, id)
            &&& ids@.len() > 0
            &&& ids@[0]@ == start@
            &&& generations_descend(graph@, boundary@) ==> ranks_descend(graph@, id_models(ids@))
            &&& limit matches Some(n) ==> ids@.len() <= n
        },
{
    let ghost g = graph@;
    let ghost b = boundary@;
    let ghost s = start@;
    proof {
        graph.lemma_finite();
        boundary.lemma_finite();
    }
    if !graph.contains(start) && !boundary.contains(start) {
        proof {
            lemma_reaches_itself(g, b, s);
            lemma_not_walkable(g, b, s, s);
        }
        return Err(Stop::Missing(start.clone()));
    }
    let mut visited: Vec<ObjectId> = Vec::new();
    let mut frontier: Vec<ObjectId> = Vec::new();
    frontier.push(start.clone());
    proof {
        assert(id_models(visited@) =~= Seq::<Seq<u8>>::empty());
        assert(id_models(frontier@) =~= seq![s]);
        lemma_begin(g, b, s);
        lemma_begin_orderly(g, b, s);
    }
    while frontier.len() > 0
        invariant
            g == graph@,
            b == boundary@,
            s == start@,
            g.dom().finite(),
            b.finite(),
            under_way(g, b, s, id_models(visited@), id_models(frontier@), visited@.len() as int),
            orderly(g, b, id_models(visited@), id_models(frontier@)),
            visited@.len() == 0 ==> id_models(frontier@) =~= seq![s],
            visited@.len() > 0 ==> visited@[0]@ == s,
            limit matches Some(n) ==> visited@.len() <= n,
        decreases g.dom().len() + b.len() - visited@.len(),
    {
        let ghost before_visited = id_models(visited@);
        let ghost before_frontier = id_models(frontier@);
        match limit {
            Some(n) => {
                if visited.len() >= n {
                    proof {
                        lemma_more_to_visit(
                            g,
                            b,
                            s,
                            before_visited,
                            before_frontier,
                            visited@.len() as int,
                        );
                    }
                    return Err(Stop::TimedOut);
                }
            },
            None => {},
        }
        let m = pick_next(graph, &frontier);
        let ghost x = before_frontier[m as int];
        proof {
            assert forall|k: int| 0 <= k < before_frontier.len() implies rank(
                g,
                #[trigger] before_frontier[k],
            ) <= rank(g, before_frontier[m as int]) by {
                assert(before_frontier[k] == frontier@[k]@);
            }
            lemma_discovered_bound(g, b, s, before_visited, before_frontier, visited@.len() as int);
            lemma_visit(g, b, s, before_visited, before_frontier, m as int);
            lemma_visit_orderly(g, b, before_visited, before_frontier, m as int);
        }
        let current = frontier.remove(m);
        let parents = links_of(graph, boundary, &current);
        visited.push(current);
        proof {
            assert(id_models(visited@) =~= before_visited.push(x));
            assert(id_models(frontier@) =~= before_frontier.remove(m as int));
            assert(id_models(visited@).last() == x);
            assert(visited@[0]@ == s) by {
                if before_visited.len() == 0 {
                    assert(before_frontier[0] == s);
                } else {
                    assert(id_models(visited@)[0] == before_visited[0]);
                }
            }
        }
        let mut j: usize = 0;
        while j < parents.len()
            invariant
                j <= parents@.len(),
                g == graph@,
                b == boundary@,
                s == start@,
                visited@.len() == before_visited.len() + 1,
                id_models(visited@).last() == x,
                id_models(parents@) == links(g, b, x),
                reaches(g, b, s, x),
                under_way(g, b, s, id_models(visited@), id_models(frontier@), visited@.len() - 1),
                orderly(g, b, id_models(visited@), id_models(frontier@)),
                forall|q: int|
                    0 <= q < j ==> known(
                        id_models(visited@),
                        id_models(frontier@),
                        #[trigger] links(g, b, x)[q],
                    ),
                visited@[0]@ == s,
            decreases parents@.len() - j,
        {
            let parent = &parents[j];
            let ghost p = parent@;
            let ghost f = id_models(frontier@);
            proof {
                assert(id_models(parents@)[j as int] == p);
                assert(links(g, b, x).contains(p));
                lemma_reaches_link(g, b, s, x, p);
            }
            if position(&visited, parent).is_none() && position(&frontier, parent).is_none() {
                if !graph.contains(parent) && !boundary.contains(parent) {
                    proof {
                        lemma_not_walkable(g, b, s, p);
                    }
                    return Err(Stop::Missing(parent.clone()));
                }
                proof {
                    lemma_discover(g, b, s, id_models(visited@), f, p, visited@.len() - 1);
                    lemma_discover_orderly(g, b, id_models(visited@), f, p);
                }
                frontier.push(parent.clone());
                proof {
                    assert(id_models(frontier@) =~= f.push(p));
                }
            }
            j += 1;
        }
        proof {
            lemma_close_last(g, b, s, id_models(visited@), id_models(frontier@));
        }
    }
    proof {
        lemma_finished(g, b, s, id_models(visited@), id_models(frontier@));
        lemma_finished_orderly(g, b, id_models(visited@), id_models(frontier@));
        assert(id_models(visited@)[0] == s);
    }
    Ok(visited)
}

/// Every commit that `start` reaches, `start` first, each once.
///
/// The walk follows the parents of a commit, but not those of a commit of
/// the boundary. Of the commits it has found and not yet visited it visits
/// the one of the highest rank first, and of several of that rank the one
/// it found first: where generations descend, the commits come in
/// descending rank. It fails with [`Error::ObjectNotFound`] if and only if
/// `start` reaches a commit that is neither in the graph nor part of the
/// boundary.
pub fn ancestors(graph: &CommitGraph, boundary: &ShallowBoundary, start: &ObjectId) -> (walked:
    Result<Vec<ObjectId>, Error>)
    ensures
        walked is Ok <==> walkable(graph@, boundary@, start@),
        walked matches Err(e) ==> e == Error::ObjectNotFound,
        walked matches Ok(ids) ==> {
            &&& id_models(ids@).no_duplicates()
            &&& forall|id: Seq<u8>|
                id_models(ids@).contains(id) <==> reaches(graph@, boundary@, start@, id)
            &&& ids@.len() > 0
            &&& ids@[0]@ == start@
            &&& generations_descend(graph@, boundary@) ==> ranks_descend(graph@, id_models(ids@))
        },
{
    match search(graph, boundary, start, None) {
        Ok(ids) => Ok(ids),
        Err(stop) => Err(stop.error()),
    }
}

/// A commit that `start` reaches and that cannot be read, being neither in
/// the graph nor part of the boundary; none if there is no such commit.
/// One who fills the graph from a store of objects learns here which
/// commit to fetch next.
pub fn unresolved_ancestor(graph: &CommitGraph, boundary: &ShallowBoundary, start: &ObjectId) -> (missing:
    Option<ObjectId>)
    ensures
        missing is None <==> walkable(graph@, boundary@, start@),
        missing matches Some(id) ==> reaches(graph@, boundary@, start@, id@) && unresolved(
            graph@,
            boundary@,
            id@,
        ),
{
    match search(graph, boundary, start, None) {
        Ok(_) => None,
        Err(Stop::Missing(id)) => Some(id),
        Err(Stop::TimedOut) => None,
    }
}

/// As [`ancestors`], but giving up once more than `steps` commits would
/// have to be visited. The walk then fails with [`Error::TimedOut`]: it
/// never returns a part of the ancestry.
///
/// It succeeds if and only if all that `start` reaches can be read and is
/// no more than `steps` commits. Where both are not so, either failure may
/// be reported.
pub fn ancestors_within(
    graph: &CommitGraph,
    boundary: &ShallowBoundary,
    start: &ObjectId,
    steps: usize,
) -> (walked: Result<Vec<ObjectId>, Error>)
    ensures
        walked is Ok <==> walkable(graph@, boundary@, start@) && !reaches_more_than(
            graph@,
            boundary@,
            start@,
            steps as int,
        ),
        walked matches Err(e) ==> {
            ||| e == Error::ObjectNotFound && !walkable(graph@, boundary@, start@)
            ||| e == Error::TimedOut && reaches_more_than(graph@, boundary@, start@, steps as int)
        },
        walked matches Ok(ids) ==> {
            &&& id_models(ids@).no_duplicates()
            &&& forall|id: Seq<u8>|
                id_models(ids@).contains(id) <==> reaches(graph@, boundary@, start@, id)
            &&& ids@.len() > 0
            &&& ids@[0]@ == start@
            &&& ids@.len() <= steps
            &&& generations_descend(graph@, boundary@) ==> ranks_descend(graph@, id_models(ids@))
        },
{
    match search(graph, boundary, start, Some(steps)) {
        Ok(ids) => {
            proof {
                lemma_no_more_than_visited(graph@, boundary@, start@, id_models(ids@));
                if reaches_more_than(graph@, boundary@, start@, steps as int) {
                    lemma_reaches_more_than_fewer(
                        graph@,
                        boundary@,
                        start@,
                        steps as int,
                        ids@.len() as int,
                    );
                }
            }
            Ok(ids)
        },
        Err(stop) => Err(stop.error()),
    }
}

/// The commits of the ids, each as a walk hands it out.
fn collect(graph: &CommitGraph, ids: &Vec<ObjectId>) -> (nodes: Vec<CommitNode>)
    ensures
        nodes@.len() == ids@.len(),
        node_id_models(nodes@) == id_models(ids@),
        forall|i: int| 0 <= i < nodes@.len() ==> (#[trigger] nodes@[i]).id@ == ids@[i]@,
        forall|i: int|
            0 <= i < nodes@.len() ==> (#[trigger] nodes@[i])@ == walked_node(graph@, nodes@[i].id@),
{
    let mut nodes: Vec<CommitNode> = Vec::new();
    let mut i: usize = 0;
    while i < ids.len()
        invariant
            i <= ids@.len(),
            nodes@.len() == i,
            forall|k: int| 0 <= k < i ==> (#[trigger] nodes@[k]).id@ == ids@[k]@,
            forall|k: int|
                0 <= k < i ==> (#[trigger] nodes@[k])@ == walked_node(graph@, nodes@[k].id@),
        decreases ids@.len() - i,
    {
        let node = match graph.get(&ids[i]) {
            Some(node) => node.clone(),
            None => {
                let parents: Vec<ObjectId> = Vec::new();
                assert(id_models(parents@) =~= Seq::<Seq<u8>>::empty());
                CommitNode { id: ids[i].clone(), parents, generation: None }
            },
        };
        nodes.push(node);
        i += 1;
    }
    assert(node_id_models(nodes@) =~= id_models(ids@));
    nodes
}

/// Walk the ancestry of `start`: every commit that it reaches, `start`
/// first, each once, each as the graph holds it, in the order of
/// [`ancestors`].
///
/// A commit of the boundary ends the walk on its path: its parents are not
/// followed, whatever the graph holds for them, and if the graph does not
/// hold the commit itself, it is handed out without parents. The walk fails
/// with [`Error::ObjectNotFound`] if and only if `start` reaches a commit
/// that is neither in the graph nor part of the boundary.
pub fn walk(graph: &CommitGraph, boundary: &ShallowBoundary, start: &ObjectId) -> (walked: Result<
    Vec<CommitNode>,
    Error,
>)
    ensures
        walked is Ok <==> walkable(graph@, boundary@, start@),
        walked matches Err(e) ==> e == Error::ObjectNotFound,
        walked matches Ok(nodes) ==> {
            &&& node_id_models(nodes@).no_duplicates()
            &&& forall|id: Seq<u8>|
                node_id_models(nodes@).contains(id) <==> reaches(graph@, boundary@, start@, id)
            &&& forall|i: int|
                0 <= i < nodes@.len() ==> (#[trigger] nodes@[i])@ == walked_node(
                    graph@,
                    nodes@[i].id@,
                )
            &&& nodes@.len() > 0
            &&& nodes@[0].id@ == start@
            &&& generations_descend(graph@, boundary@) ==> ranks_descend(
                graph@,
                node_id_models(nodes@),
            )
        },
{
    match ancestors(graph, boundary, start) {
        Ok(ids) => {
            let nodes = collect(graph, &ids);
            Ok(nodes)
        },
        Err(e) => Err(e),
    }
}

/// As [`walk`], but giving up with [`Error::TimedOut`] once more than
/// `steps` commits would have to be visited.
pub fn walk_within(
    graph: &CommitGraph,
    boundary: &ShallowBoundary,
    start: &ObjectId,
    steps: usize,
) -> (walked: Result<Vec<CommitNode>, Error>)
    ensures
        walked is Ok <==> walkable(graph@, boundary@, start@) && !reaches_more_than(
            graph@,
            boundary@,
            start@,
            steps as int,
        ),
        walked matches Err(e) ==> {
            ||| e == Error::ObjectNotFound && !walkable(graph@, boundary@, start@)
            ||| e == Error::TimedOut && reaches_more_than(graph@, boundary@, start@, steps as int)
        },
        walked matches Ok(nodes) ==> {
            &&& node_id_models(nodes@).no_duplicates()
            &&& forall|id: Seq<u8>|
                node_id_models(nodes@).contains(id) <==> reaches(graph@, boundary@, start@, id)
            &&& forall|i: int|
                0 <= i < nodes@.len() ==> (#[trigger] nodes@[i])@ == walked_node(
                    graph@,
                    nodes@[i].id@,
                )
            &&& nodes@.len() > 0
            &&& nodes@[0].id@ == start@
            &&& nodes@.len() <= steps
            &&& generations_descend(graph@, boundary@) ==> ranks_descend(
                graph@,
                node_id_models(nodes@),
            )
        },
{
    match ancestors_within(graph, boundary, start, steps) {
        Ok(ids) => {
            let nodes = collect(graph, &ids);
            Ok(nodes)
        },
        Err(e) => Err(e),
    }
}

/// The shallow boundary ends a walk. If every way from `start` to a commit
/// leads through a commit of the boundary, then no walk from `start` visits
/// that commit, whatever parents the graph holds for the commit of the
/// boundary. The ways are those of the graph as it is held, with no
/// boundary at all.
pub proof fn lemma_walk_stops_at_boundary(
    graph: Map<Seq<u8>, NodeModel>,
    boundary: Set<Seq<u8>>,
    start: Seq<u8>,
    shallow: Seq<u8>,
    id: Seq<u8>,
)
    requires
        boundary.contains(shallow),
        forall|path: Seq<Seq<u8>>|
            path_between(graph, Set::empty(), path, start, id) ==> exists|i: int|
                0 <= i < path.len() - 1 && #[trigger] path[i] == shallow,
    ensures
        !reaches(graph, boundary, start, id),
{
    if reaches(graph, boundary, start, id) {
        let path = choose|path: Seq<Seq<u8>>| path_between(graph, boundary, path, start, id);
        assert forall|i: int| 0 <= i < path.len() - 1 implies links(
            graph,
            Set::empty(),
            #[trigger] path[i],
        ).contains(path[i + 1]) by {
            assert(links(graph, boundary, path[i]).contains(path[i + 1]));
        }
        assert(path_between(graph, Set::empty(), path, start, id));
        let i = choose|i: int| 0 <= i < path.len() - 1 && #[trigger] path[i] == shallow;
        assert(links(graph, boundary, path[i]).contains(path[i + 1]));
        assert(links(graph, boundary, shallow) =~= Seq::<Seq<u8>>::empty());
    }
}

} // verus!
