//! The commit graph as far as it is known, the shallow boundary that cuts
//! it, and what it means for one commit to reach another.

use vstd::prelude::*;
use crate::object_id::ObjectId;

verus! {

/// A commit as a value.
pub struct NodeModel {
    pub id: Seq<u8>,
    pub parents: Seq<Seq<u8>>,
    pub generation: Option<u32>,
}

/// The values of a sequence of ids.
pub open spec fn id_models(ids: Seq<ObjectId>) -> Seq<Seq<u8>> {
    ids.map_values(|id: ObjectId| id@)
}

/// A commit: its id, the ids of its parents in their order, and, where a
/// graph index gave one, its generation number, which is larger than that
/// of each parent.
#[derive(Debug)]
pub struct CommitNode {
    pub id: ObjectId,
    pub parents: Vec<ObjectId>,
    pub generation: Option<u32>,
}

impl View for CommitNode {
    type V = NodeModel;

    open spec fn view(&self) -> NodeModel {
        NodeModel { id: self.id@, parents: id_models(self.parents@), generation: self.generation }
    }
}

/// A copy of a list of ids.
pub fn clone_ids(ids: &Vec<ObjectId>) -> (copy: Vec<ObjectId>)
    ensures
        id_models(copy@) == id_models(ids@),
{
    let mut copy: Vec<ObjectId> = Vec::new();
    let mut i: usize = 0;
    while i < ids.len()
        invariant
            i <= ids@.len(),
            copy@.len() == i,
            forall|k: int| 0 <= k < i ==> copy@[k]@ == ids@[k]@,
        decreases ids@.len() - i,
    {
        copy.push(ids[i].clone());
        i += 1;
    }
    assert(id_models(copy@) =~= id_models(ids@));
    copy
}

/// Where `id` stands in `ids`, if it is among them.
pub fn position(ids: &Vec<ObjectId>, id: &ObjectId) -> (found: Option<usize>)
    ensures
        found matches Some(i) ==> i < ids@.len() && ids@[i as int]@ == id@,
        found is Some <==> id_models(ids@).contains(id@),
{
    let mut i: usize = 0;
    while i < ids.len()
        invariant
            i <= ids@.len(),
            forall|k: int| 0 <= k < i ==> ids@[k]@ != id@,
        decreases ids@.len() - i,
    {
        if ids[i] == *id {
            assert(id_models(ids@)[i as int] == id@);
            return Some(i);
        }
        i += 1;
    }
    assert forall|k: int| 0 <= k < id_models(ids@).len() implies id_models(ids@)[k] != id@ by {
        assert(id_models(ids@)[k] == ids@[k]@);
    }
    None
}

/// A sequence with one more element holds what it held, and that element.
pub proof fn lemma_push_contains<A>(s: Seq<A>, last: A, x: A)
    ensures
        s.push(last).contains(x) <==> s.contains(x) || x == last,
{
    let more = s.push(last);
    if s.contains(x) {
        let k = choose|k: int| 0 <= k < s.len() && s[k] == x;
        assert(more[k] == x);
    }
    if x == last {
        assert(more[s.len() as int] == x);
    }
    if more.contains(x) {
        let k = choose|k: int| 0 <= k < more.len() && more[k] == x;
        if k < s.len() {
            assert(s[k] == x);
        }
    }
}

/// The first `i + 1` elements hold what the first `i` hold, and the next.
pub proof fn lemma_take_contains<A>(s: Seq<A>, i: int, x: A)
    requires
        0 <= i < s.len(),
    ensures
        s.take(i + 1).contains(x) <==> s.take(i).contains(x) || x == s[i],
{
    assert(s.take(i + 1) =~= s.take(i).push(s[i]));
    lemma_push_contains(s.take(i), s[i], x);
}

impl Clone for CommitNode {
    fn clone(&self) -> (copy: CommitNode)
        ensures
            copy@ == self@,
    {
        CommitNode {
            id: self.id.clone(),
            parents: clone_ids(&self.parents),
            generation: self.generation,
        }
    }
}

/// The parents that a walk follows from `id`: those that the graph holds for
/// it, and none if `id` is part of the shallow boundary or is not in the
/// graph.
pub open spec fn links(
    graph: Map<Seq<u8>, NodeModel>,
    boundary: Set<Seq<u8>>,
    id: Seq<u8>,
) -> Seq<Seq<u8>> {
    if boundary.contains(id) || !graph.contains_key(id) {
        Seq::empty()
    } else {
        graph[id].parents
    }
}

/// A path leads from each of its commits to the next along a link.
pub open spec fn is_path(
    graph: Map<Seq<u8>, NodeModel>,
    boundary: Set<Seq<u8>>,
    path: Seq<Seq<u8>>,
) -> bool {
    &&& path.len() > 0
    &&& forall|i: int|
        0 <= i < path.len() - 1 ==> links(graph, boundary, #[trigger] path[i]).contains(path[i + 1])
}

/// A path leads from `from` to `to`.
pub open spec fn path_between(
    graph: Map<Seq<u8>, NodeModel>,
    boundary: Set<Seq<u8>>,
    path: Seq<Seq<u8>>,
    from: Seq<u8>,
    to: Seq<u8>,
) -> bool {
    is_path(graph, boundary, path) && path[0] == from && path[path.len() - 1] == to
}

/// `to` is `from` or one of its ancestors, as far as links lead.
pub open spec fn reaches(
    graph: Map<Seq<u8>, NodeModel>,
    boundary: Set<Seq<u8>>,
    from: Seq<u8>,
    to: Seq<u8>,
) -> bool {
    exists|path: Seq<Seq<u8>>| path_between(graph, boundary, path, from, to)
}

/// A commit that a walk cannot read: it is not in the graph, and it is not
/// part of the boundary, where nothing needs to be read.
pub open spec fn unresolved(
    graph: Map<Seq<u8>, NodeModel>,
    boundary: Set<Seq<u8>>,
    id: Seq<u8>,
) -> bool {
    !graph.contains_key(id) && !boundary.contains(id)
}

/// Every commit that `start` reaches can be read.
pub open spec fn walkable(
    graph: Map<Seq<u8>, NodeModel>,
    boundary: Set<Seq<u8>>,
    start: Seq<u8>,
) -> bool {
    forall|id: Seq<u8>| reaches(graph, boundary, start, id) ==> !unresolved(graph, boundary, id)
}

/// Every commit reaches itself.
pub proof fn lemma_reaches_itself(
    graph: Map<Seq<u8>, NodeModel>,
    boundary: Set<Seq<u8>>,
    id: Seq<u8>,
)
    ensures
        reaches(graph, boundary, id, id),
{
    assert(path_between(graph, boundary, seq![id], id, id));
}

/// What a commit reaches, it reaches the links of.
pub proof fn lemma_reaches_link(
    graph: Map<Seq<u8>, NodeModel>,
    boundary: Set<Seq<u8>>,
    from: Seq<u8>,
    via: Seq<u8>,
    to: Seq<u8>,
)
    requires
        reaches(graph, boundary, from, via),
        links(graph, boundary, via).contains(to),
    ensures
        reaches(graph, boundary, from, to),
{
    let path = choose|path: Seq<Seq<u8>>| path_between(graph, boundary, path, from, via);
    let longer = path.push(to);
    assert forall|i: int| 0 <= i < longer.len() - 1 implies links(
        graph,
        boundary,
        #[trigger] longer[i],
    ).contains(longer[i + 1]) by {
        if i < path.len() - 1 {
            assert(longer[i] == path[i]);
            assert(longer[i + 1] == path[i + 1]);
        }
    }
    assert(path_between(graph, boundary, longer, from, to));
}

/// Reaching is transitive.
pub proof fn lemma_reaches_transitive(
    graph: Map<Seq<u8>, NodeModel>,
    boundary: Set<Seq<u8>>,
    from: Seq<u8>,
    via: Seq<u8>,
    to: Seq<u8>,
)
    requires
        reaches(graph, boundary, from, via),
        reaches(graph, boundary, via, to),
    ensures
        reaches(graph, boundary, from, to),
{
    let first = choose|path: Seq<Seq<u8>>| path_between(graph, boundary, path, from, via);
    let second = choose|path: Seq<Seq<u8>>| path_between(graph, boundary, path, via, to);
    let joined = first + second.drop_first();
    assert forall|i: int| 0 <= i < joined.len() - 1 implies links(
        graph,
        boundary,
        #[trigger] joined[i],
    ).contains(joined[i + 1]) by {
        if i < first.len() - 1 {
            assert(joined[i] == first[i]);
            assert(joined[i + 1] == first[i + 1]);
        } else if i == first.len() - 1 {
            assert(joined[i] == second[0]);
            assert(joined[i + 1] == second[1]);
        } else {
            assert(joined[i] == second[i - first.len() + 1]);
            assert(joined[i + 1] == second[i - first.len() + 2]);
        }
    }
    assert(path_between(graph, boundary, joined, from, to));
}

/// A set of commits that holds the links of each of its members holds
/// whatever its members reach.
pub proof fn lemma_closed_set_holds_reached(
    graph: Map<Seq<u8>, NodeModel>,
    boundary: Set<Seq<u8>>,
    closed: Set<Seq<u8>>,
    from: Seq<u8>,
    to: Seq<u8>,
)
    requires
        closed.contains(from),
        forall|id: Seq<u8>, next: Seq<u8>|
            closed.contains(id) && #[trigger] links(graph, boundary, id).contains(next)
                ==> closed.contains(next),
        reaches(graph, boundary, from, to),
    ensures
        closed.contains(to),
{
    let path = choose|path: Seq<Seq<u8>>| path_between(graph, boundary, path, from, to);
    lemma_closed_set_holds_path(graph, boundary, closed, path, path.len() - 1);
}

proof fn lemma_closed_set_holds_path(
    graph: Map<Seq<u8>, NodeModel>,
    boundary: Set<Seq<u8>>,
    closed: Set<Seq<u8>>,
    path: Seq<Seq<u8>>,
    i: int,
)
    requires
        is_path(graph, boundary, path),
        closed.contains(path[0]),
        forall|id: Seq<u8>, next: Seq<u8>|
            closed.contains(id) && #[trigger] links(graph, boundary, id).contains(next)
                ==> closed.contains(next),
        0 <= i < path.len(),
    ensures
        closed.contains(path[i]),
    decreases i,
{
    if i > 0 {
        lemma_closed_set_holds_path(graph, boundary, closed, path, i - 1);
        assert(links(graph, boundary, path[i - 1]).contains(path[i]));
    }
}

spec fn nodes_distinct(nodes: Seq<CommitNode>) -> bool {
    forall|i: int, j: int| 0 <= i < j < nodes.len() ==> nodes[i].id@ != nodes[j].id@
}

spec fn has_node(nodes: Seq<CommitNode>, id: Seq<u8>) -> bool {
    exists|i: int| 0 <= i < nodes.len() && #[trigger] nodes[i].id@ == id
}

spec fn node_at(nodes: Seq<CommitNode>, id: Seq<u8>) -> int {
    choose|i: int| 0 <= i < nodes.len() && #[trigger] nodes[i].id@ == id
}

spec fn nodes_map(nodes: Seq<CommitNode>) -> Map<Seq<u8>, NodeModel> {
    Map::new(|id: Seq<u8>| has_node(nodes, id), |id: Seq<u8>| nodes[node_at(nodes, id)]@)
}

spec fn node_ids(nodes: Seq<CommitNode>) -> Seq<Seq<u8>> {
    nodes.map_values(|node: CommitNode| node.id@)
}

proof fn lemma_node_at(nodes: Seq<CommitNode>, i: int)
    requires
        nodes_distinct(nodes),
        0 <= i < nodes.len(),
    ensures
        has_node(nodes, nodes[i].id@),
        node_at(nodes, nodes[i].id@) == i,
{
    let j = node_at(nodes, nodes[i].id@);
    assert(0 <= j < nodes.len() && nodes[j].id@ == nodes[i].id@);
}

/// The commits that are known, each under its id.
pub struct CommitGraph {
    nodes: Vec<CommitNode>,
}

impl View for CommitGraph {
    type V = Map<Seq<u8>, NodeModel>;

    closed spec fn view(&self) -> Map<Seq<u8>, NodeModel> {
        nodes_map(self.nodes@)
    }
}

impl CommitGraph {
    #[verifier::type_invariant]
    spec fn well_formed(self) -> bool {
        nodes_distinct(self.nodes@)
    }

    /// A graph holds finitely many commits, each under its own id.
    pub proof fn lemma_finite(self)
        ensures
            self@.dom().finite(),
            forall|id: Seq<u8>| self@.contains_key(id) ==> (#[trigger] self@[id]).id == id,
    {
        let ids = node_ids(self.nodes@);
        assert forall|id: Seq<u8>| self@.dom().contains(id) implies ids.to_set().contains(id) by {
            let i = node_at(self.nodes@, id);
            assert(ids[i] == id);
        }
        vstd::seq_lib::seq_to_set_is_finite(ids);
        vstd::set_lib::lemma_set_subset_finite(ids.to_set(), self@.dom());
    }

    /// A graph without commits.
    pub fn new() -> (graph: CommitGraph)
        ensures
            graph@ == Map::<Seq<u8>, NodeModel>::empty(),
    {
        let graph = CommitGraph { nodes: Vec::new() };
        assert(graph@ =~= Map::<Seq<u8>, NodeModel>::empty());
        graph
    }

    /// How many commits the graph holds.
    pub fn len(&self) -> (count: usize)
        ensures
            count == self@.dom().len(),
    {
        proof {
            use_type_invariant(self);
            let ids = node_ids(self.nodes@);
            assert forall|i: int, j: int| 0 <= i < j < ids.len() implies ids[i] != ids[j] by {
                assert(ids[i] == self.nodes@[i].id@);
                assert(ids[j] == self.nodes@[j].id@);
            }
            ids.unique_seq_to_set();
            assert(ids.to_set() =~= self@.dom()) by {
                assert forall|id: Seq<u8>| self@.dom().contains(id) implies ids.to_set().contains(
                    id,
                ) by {
                    let i = node_at(self.nodes@, id);
                    assert(ids[i] == id);
                }
                assert forall|id: Seq<u8>| ids.to_set().contains(id) implies self@.dom().contains(
                    id,
                ) by {
                    let i = choose|i: int| 0 <= i < ids.len() && ids[i] == id;
                    assert(self.nodes@[i].id@ == id);
                }
            }
        }
        self.nodes.len()
    }

    /// Where the commit `id` is kept, if it is known.
    fn index_of(&self, id: &ObjectId) -> (found: Option<usize>)
        ensures
            found matches Some(i) ==> i < self.nodes@.len() && self.nodes@[i as int].id@ == id@,
            found is None ==> !has_node(self.nodes@, id@),
    {
        let mut i: usize = 0;
        while i < self.nodes.len()
            invariant
                i <= self.nodes@.len(),
                forall|k: int| 0 <= k < i ==> self.nodes@[k].id@ != id@,
            decreases self.nodes@.len() - i,
        {
            if self.nodes[i].id == *id {
                return Some(i);
            }
            i += 1;
        }
        None
    }

    /// The commit `id`, if it is known.
    pub fn get(&self, id: &ObjectId) -> (found: Option<&CommitNode>)
        ensures
            found is Some <==> self@.contains_key(id@),
            found matches Some(node) ==> node@ == self@[id@] && node.id@ == id@,
    {
        proof {
            use_type_invariant(self);
        }
        match self.index_of(id) {
            Some(i) => {
                proof {
                    lemma_node_at(self.nodes@, i as int);
                }
                Some(&self.nodes[i])
            },
            None => None,
        }
    }

    /// Whether the commit `id` is known.
    pub fn contains(&self, id: &ObjectId) -> (known: bool)
        ensures
            known == self@.contains_key(id@),
    {
        self.index_of(id).is_some()
    }

    /// Add a commit. A commit that is known is never changed: if the graph
    /// holds one of this id already, it stays and `node` is dropped.
    pub fn insert(&mut self, node: CommitNode) -> (added: bool)
        ensures
            added == !old(self)@.contains_key(node.id@),
            final(self)@ == (if added {
                old(self)@.insert(node.id@, node@)
            } else {
                old(self)@
            }),
    {
        proof {
            use_type_invariant(&*self);
        }
        if self.index_of(&node.id).is_some() {
            return false;
        }
        let ghost before = self.nodes@;
        let ghost after = before.push(node);
        proof {
            assert forall|i: int, j: int| 0 <= i < j < after.len() implies after[i].id@
                != after[j].id@ by {
                if j == before.len() {
                    assert(before[i].id@ != node.id@);
                }
            }
            lemma_node_at(after, before.len() as int);
            assert forall|id: Seq<u8>| has_node(before, id) implies has_node(after, id) && node_at(
                after,
                id,
            ) == node_at(before, id) by {
                let k = node_at(before, id);
                assert(after[k].id@ == id);
                lemma_node_at(after, k);
            }
            assert forall|id: Seq<u8>| has_node(after, id) && id != node.id@ implies has_node(
                before,
                id,
            ) by {
                let k = node_at(after, id);
                assert(before[k].id@ == id);
            }
            assert(nodes_map(after) =~= nodes_map(before).insert(node.id@, node@));
        }
        let mut nodes: Vec<CommitNode> = Vec::new();
        core::mem::swap(&mut self.nodes, &mut nodes);
        nodes.push(node);
        self.nodes = nodes;
        true
    }
}

/// The shallow boundary: the commits whose parents are not present. A walk
/// treats them as commits without parents, whatever the graph holds for
/// them.
pub struct ShallowBoundary {
    ids: Vec<ObjectId>,
}

impl View for ShallowBoundary {
    type V = Set<Seq<u8>>;

    closed spec fn view(&self) -> Set<Seq<u8>> {
        id_models(self.ids@).to_set()
    }
}

impl ShallowBoundary {
    #[verifier::type_invariant]
    spec fn well_formed(self) -> bool {
        id_models(self.ids@).no_duplicates()
    }

    /// A boundary holds finitely many commits.
    pub proof fn lemma_finite(self)
        ensures
            self@.finite(),
    {
        vstd::seq_lib::seq_to_set_is_finite(id_models(self.ids@));
    }

    /// The boundary of a repository that is not shallow: no commit.
    pub fn new() -> (boundary: ShallowBoundary)
        ensures
            boundary@ == Set::<Seq<u8>>::empty(),
    {
        let boundary = ShallowBoundary { ids: Vec::new() };
        assert(boundary@ =~= Set::<Seq<u8>>::empty());
        boundary
    }

    /// Whether no commit is part of the boundary.
    pub fn is_empty(&self) -> (empty: bool)
        ensures
            empty == (self@ == Set::<Seq<u8>>::empty()),
    {
        proof {
            if self.ids@.len() > 0 {
                assert(id_models(self.ids@)[0] == self.ids@[0]@);
                assert(self@.contains(self.ids@[0]@));
            } else {
                assert(self@ =~= Set::<Seq<u8>>::empty());
            }
        }
        self.ids.len() == 0
    }

    /// Whether `id` is part of the boundary.
    pub fn contains(&self, id: &ObjectId) -> (member: bool)
        ensures
            member == self@.contains(id@),
    {
        position(&self.ids, id).is_some()
    }

    /// Make `id` part of the boundary. Returns whether it was not yet.
    pub fn insert(&mut self, id: ObjectId) -> (added: bool)
        ensures
            added == !old(self)@.contains(id@),
            final(self)@ == old(self)@.insert(id@),
    {
        proof {
            use_type_invariant(&*self);
        }
        if position(&self.ids, &id).is_some() {
            assert(self@.insert(id@) =~= self@);
            return false;
        }
        let ghost before = id_models(self.ids@);
        proof {
            assert(id_models(self.ids@.push(id)) =~= before.push(id@));
            assert(before.push(id@).to_set() =~= before.to_set().insert(id@)) by {
                assert forall|x: Seq<u8>| before.push(id@).to_set().contains(x) implies before.to_set().insert(
                    id@,
                ).contains(x) by {
                    let k = choose|k: int| 0 <= k < before.push(id@).len() && before.push(id@)[k] == x;
                    if k < before.len() {
                        assert(before[k] == x);
                    }
                }
                assert forall|x: Seq<u8>| before.to_set().insert(id@).contains(x) implies before.push(
                    id@,
                ).to_set().contains(x) by {
                    if x == id@ {
                        assert(before.push(id@)[before.len() as int] == x);
                    } else {
                        let k = choose|k: int| 0 <= k < before.len() && before[k] == x;
                        assert(before.push(id@)[k] == x);
                    }
                }
            }
        }
        let mut ids: Vec<ObjectId> = Vec::new();
        core::mem::swap(&mut self.ids, &mut ids);
        ids.push(id);
        self.ids = ids;
        true
    }

    /// The commits of the boundary, each once.
    pub fn ids(&self) -> (ids: Vec<ObjectId>)
        ensures
            id_models(ids@).no_duplicates(),
            id_models(ids@).to_set() == self@,
    {
        proof {
            use_type_invariant(self);
        }
        clone_ids(&self.ids)
    }
}

} // verus!
