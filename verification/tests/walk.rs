use gitmeta::error::Error;
use gitmeta::graph::{CommitGraph, CommitNode, ShallowBoundary};
use gitmeta::object_id::ObjectId;
use gitmeta::walk::{ancestors, pick_next, rank_of, walk, NO_GENERATION};

fn id(n: u8) -> ObjectId {
    ObjectId::from_bytes(vec![n; 20]).unwrap()
}

fn commit(n: u8, parents: &[u8], generation: Option<u32>) -> CommitNode {
    CommitNode { id: id(n), parents: parents.iter().map(|p| id(*p)).collect(), generation }
}

fn graph(nodes: Vec<CommitNode>) -> CommitGraph {
    let mut graph = CommitGraph::new();
    for node in nodes {
        assert!(graph.insert(node));
    }
    graph
}

fn boundary(ids: &[u8]) -> ShallowBoundary {
    let mut boundary = ShallowBoundary::new();
    for n in ids {
        boundary.insert(id(*n));
    }
    boundary
}

fn visited(graph: &CommitGraph, boundary: &ShallowBoundary, start: u8) -> Vec<ObjectId> {
    ancestors(graph, boundary, &id(start)).unwrap()
}

#[test]
fn graph_keeps_the_first_commit_of_an_id() {
    let mut g = CommitGraph::new();
    assert_eq!(g.len(), 0);
    assert!(g.insert(commit(1, &[2], Some(2))));
    assert!(!g.insert(commit(1, &[3], Some(9))));
    assert_eq!(g.len(), 1);
    let kept = g.get(&id(1)).unwrap();
    assert_eq!(kept.parents, vec![id(2)]);
    assert_eq!(kept.generation, Some(2));
    assert!(g.contains(&id(1)));
    assert!(!g.contains(&id(2)));
    assert!(g.get(&id(2)).is_none());
}

#[test]
fn boundary_is_a_set() {
    let mut b = ShallowBoundary::new();
    assert!(b.is_empty());
    assert!(b.insert(id(1)));
    assert!(!b.insert(id(1)));
    assert!(b.insert(id(2)));
    assert!(!b.is_empty());
    assert!(b.contains(&id(1)));
    assert!(!b.contains(&id(3)));
    assert_eq!(b.ids(), vec![id(1), id(2)]);
}

#[test]
fn walk_of_a_chain_visits_all_in_order() {
    let g = graph(vec![commit(3, &[2], None), commit(2, &[1], None), commit(1, &[], None)]);
    let nodes = walk(&g, &ShallowBoundary::new(), &id(3)).unwrap();
    assert_eq!(nodes.len(), 3);
    assert_eq!(nodes[0].id, id(3));
    assert_eq!(nodes[0].parents, vec![id(2)]);
    assert_eq!(nodes[1].id, id(2));
    assert_eq!(nodes[2].id, id(1));
    assert!(nodes[2].parents.is_empty());
}

#[test]
fn walk_visits_a_shared_ancestor_once() {
    let g = graph(vec![
        commit(4, &[2, 3], None),
        commit(2, &[1], None),
        commit(3, &[1], None),
        commit(1, &[], None),
    ]);
    assert_eq!(visited(&g, &ShallowBoundary::new(), 4), vec![id(4), id(2), id(3), id(1)]);
}

#[test]
fn walk_starts_anywhere() {
    let g = graph(vec![commit(3, &[2], None), commit(2, &[1], None), commit(1, &[], None)]);
    assert_eq!(visited(&g, &ShallowBoundary::new(), 2), vec![id(2), id(1)]);
    assert_eq!(visited(&g, &ShallowBoundary::new(), 1), vec![id(1)]);
}

#[test]
fn walk_fails_on_a_missing_commit() {
    let g = graph(vec![commit(3, &[2], None), commit(2, &[1], None)]);
    assert_eq!(ancestors(&g, &ShallowBoundary::new(), &id(3)).unwrap_err(), Error::ObjectNotFound);
    assert_eq!(walk(&g, &ShallowBoundary::new(), &id(3)).unwrap_err(), Error::ObjectNotFound);
    assert_eq!(ancestors(&g, &ShallowBoundary::new(), &id(9)).unwrap_err(), Error::ObjectNotFound);
}

#[test]
fn walk_never_crosses_the_boundary() {
    let g = graph(vec![
        commit(4, &[3], None),
        commit(3, &[2], None),
        commit(2, &[1], None),
        commit(1, &[], None),
    ]);
    let b = boundary(&[3]);
    assert_eq!(visited(&g, &b, 4), vec![id(4), id(3)]);
    let nodes = walk(&g, &b, &id(4)).unwrap();
    assert_eq!(nodes[1].id, id(3));
    assert_eq!(nodes[1].parents, vec![id(2)]);
}

#[test]
fn walk_does_not_need_what_lies_beyond_the_boundary() {
    let g = graph(vec![commit(4, &[3], None), commit(3, &[2], None)]);
    assert_eq!(ancestors(&g, &ShallowBoundary::new(), &id(4)).unwrap_err(), Error::ObjectNotFound);
    assert_eq!(visited(&g, &boundary(&[3]), 4), vec![id(4), id(3)]);
}

#[test]
fn boundary_commit_that_is_not_held_is_a_leaf() {
    let g = graph(vec![commit(4, &[3], Some(2))]);
    let nodes = walk(&g, &boundary(&[3]), &id(4)).unwrap();
    assert_eq!(nodes.len(), 2);
    assert_eq!(nodes[1].id, id(3));
    assert!(nodes[1].parents.is_empty());
    assert_eq!(nodes[1].generation, None);
    let alone = walk(&CommitGraph::new(), &boundary(&[3]), &id(3)).unwrap();
    assert_eq!(alone.len(), 1);
    assert_eq!(alone[0].id, id(3));
}

#[test]
fn walk_from_a_boundary_commit_visits_it_alone() {
    let g = graph(vec![commit(3, &[2], None), commit(2, &[1], None), commit(1, &[], None)]);
    assert_eq!(visited(&g, &boundary(&[3]), 3), vec![id(3)]);
}

#[test]
fn ancestor_of_the_boundary_is_visited_along_another_way() {
    let g = graph(vec![
        commit(5, &[4, 3], None),
        commit(4, &[2], None),
        commit(3, &[2], None),
        commit(2, &[1], None),
        commit(1, &[], None),
    ]);
    assert_eq!(visited(&g, &boundary(&[4]), 5), vec![id(5), id(4), id(3), id(2), id(1)]);
    assert_eq!(visited(&g, &boundary(&[4, 3]), 5), vec![id(5), id(4), id(3)]);
}

#[test]
fn walk_ends_in_a_graph_with_a_cycle() {
    let g = graph(vec![commit(1, &[2], None), commit(2, &[1, 2], None)]);
    assert_eq!(visited(&g, &ShallowBoundary::new(), 1), vec![id(1), id(2)]);
}

#[test]
fn walk_visits_the_highest_generation_first() {
    let g = graph(vec![
        commit(6, &[2, 5], Some(4)),
        commit(2, &[1], Some(2)),
        commit(5, &[4], Some(3)),
        commit(4, &[1], Some(2)),
        commit(1, &[], Some(1)),
    ]);
    assert_eq!(visited(&g, &ShallowBoundary::new(), 6), vec![id(6), id(5), id(2), id(4), id(1)]);
}

#[test]
fn commits_without_generation_come_first() {
    let g = graph(vec![
        commit(6, &[2, 5], Some(3)),
        commit(2, &[], Some(2)),
        commit(5, &[], None),
    ]);
    assert_eq!(visited(&g, &ShallowBoundary::new(), 6), vec![id(6), id(5), id(2)]);
    assert_eq!(rank_of(&g, &id(2)), 2);
    assert_eq!(rank_of(&g, &id(5)), NO_GENERATION);
    assert_eq!(rank_of(&g, &id(9)), NO_GENERATION);
    assert_eq!(NO_GENERATION, u32::MAX as u64 + 1);
}

#[test]
fn pick_next_takes_the_first_of_the_highest_rank() {
    let g = graph(vec![
        commit(1, &[], Some(1)),
        commit(2, &[], Some(7)),
        commit(3, &[], Some(7)),
        commit(4, &[], Some(3)),
    ]);
    assert_eq!(pick_next(&g, &vec![id(1), id(2), id(3), id(4)]), 1);
    assert_eq!(pick_next(&g, &vec![id(4), id(1)]), 0);
    assert_eq!(pick_next(&g, &vec![id(1)]), 0);
    assert_eq!(pick_next(&g, &vec![id(1), id(3), id(9), id(2)]), 2);
}
