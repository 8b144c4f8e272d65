use gitmeta::error::Error;
use gitmeta::graph::{CommitGraph, CommitNode, ShallowBoundary};
use gitmeta::merge_base::{
    insert_sorted, is_linked_from_other, merge_base, merge_base_octopus,
    merge_base_octopus_within, merge_base_within, merge_bases, merge_bases_within,
    retain_members,
};
use gitmeta::object_id::ObjectId;

fn id(n: u8) -> ObjectId {
    ObjectId::from_bytes(vec![n; 20]).unwrap()
}

fn commit(n: u8, parents: &[u8]) -> CommitNode {
    CommitNode { id: id(n), parents: parents.iter().map(|p| id(*p)).collect(), generation: None }
}

fn graph(nodes: Vec<CommitNode>) -> CommitGraph {
    let mut graph = CommitGraph::new();
    for node in nodes {
        assert!(graph.insert(node));
    }
    graph
}

fn none() -> ShallowBoundary {
    ShallowBoundary::new()
}

fn boundary(ids: &[u8]) -> ShallowBoundary {
    let mut boundary = ShallowBoundary::new();
    for n in ids {
        boundary.insert(id(*n));
    }
    boundary
}

/// 1 is the root; 2 and 3 are its children; 4 merges 2 and 3.
fn diamond() -> CommitGraph {
    graph(vec![commit(1, &[]), commit(2, &[1]), commit(3, &[1]), commit(4, &[2, 3])])
}

/// 5 and 6 both merge 3 and 4, which both descend from 2, the child of 1.
fn criss_cross() -> CommitGraph {
    graph(vec![
        commit(1, &[]),
        commit(2, &[1]),
        commit(4, &[2]),
        commit(3, &[2]),
        commit(5, &[4, 3]),
        commit(6, &[3, 4]),
    ])
}

#[test]
fn merge_base_of_a_commit_with_itself_is_the_commit() {
    let g = diamond();
    for n in 1..=4u8 {
        assert_eq!(merge_base(&g, &none(), &id(n), &id(n)).unwrap(), id(n));
    }
    assert_eq!(merge_base(&CommitGraph::new(), &none(), &id(9), &id(9)).unwrap(), id(9));
}

#[test]
fn merge_base_does_not_depend_on_the_order() {
    let g = criss_cross();
    for a in 1..=6u8 {
        for b in 1..=6u8 {
            assert_eq!(
                merge_base(&g, &none(), &id(a), &id(b)),
                merge_base(&g, &none(), &id(b), &id(a))
            );
        }
    }
}

#[test]
fn merge_base_in_a_linear_chain_is_the_ancestor() {
    let g = graph(vec![commit(10, &[20]), commit(20, &[30]), commit(30, &[])]);
    assert_eq!(merge_base(&g, &none(), &id(10), &id(30)).unwrap(), id(30));
    assert_eq!(merge_base(&g, &none(), &id(30), &id(10)).unwrap(), id(30));
    assert_eq!(merge_base(&g, &none(), &id(10), &id(20)).unwrap(), id(20));
}

#[test]
fn merge_base_of_siblings_is_their_parent() {
    let g = diamond();
    assert_eq!(merge_base(&g, &none(), &id(2), &id(3)).unwrap(), id(1));
    assert_eq!(merge_base(&g, &none(), &id(4), &id(2)).unwrap(), id(2));
    assert_eq!(merge_bases(&g, &none(), &id(2), &vec![id(3)]).unwrap(), vec![id(1)]);
}

#[test]
fn disjoint_histories_have_no_merge_base() {
    let g = graph(vec![commit(1, &[]), commit(2, &[1]), commit(7, &[]), commit(8, &[7])]);
    assert_eq!(merge_base(&g, &none(), &id(2), &id(8)).unwrap_err(), Error::NoCommonAncestor);
    assert_eq!(merge_base(&g, &none(), &id(1), &id(7)).unwrap_err(), Error::NoCommonAncestor);
    assert!(merge_bases(&g, &none(), &id(2), &vec![id(8)]).unwrap().is_empty());
}

#[test]
fn several_merge_bases_come_in_byte_order() {
    let g = criss_cross();
    assert_eq!(merge_bases(&g, &none(), &id(5), &vec![id(6)]).unwrap(), vec![id(3), id(4)]);
    assert_eq!(merge_bases(&g, &none(), &id(6), &vec![id(5)]).unwrap(), vec![id(3), id(4)]);
    assert_eq!(merge_base(&g, &none(), &id(5), &id(6)).unwrap(), id(3));
}

#[test]
fn merge_base_fails_on_a_missing_commit() {
    let g = graph(vec![commit(2, &[1]), commit(3, &[1])]);
    assert_eq!(merge_base(&g, &none(), &id(2), &id(3)).unwrap_err(), Error::ObjectNotFound);
    assert_eq!(
        merge_bases(&g, &none(), &id(2), &vec![id(3)]).unwrap_err(),
        Error::ObjectNotFound
    );
    assert_eq!(merge_base(&diamond(), &none(), &id(2), &id(9)).unwrap_err(), Error::ObjectNotFound);
    assert_eq!(merge_base(&diamond(), &none(), &id(9), &id(2)).unwrap_err(), Error::ObjectNotFound);
}

#[test]
fn merge_base_does_not_look_beyond_the_boundary() {
    let g = diamond();
    let cut = boundary(&[2, 3]);
    assert_eq!(merge_base(&g, &cut, &id(2), &id(3)).unwrap_err(), Error::NoCommonAncestor);
    assert_eq!(merge_base(&g, &cut, &id(4), &id(2)).unwrap(), id(2));
    let one_side = boundary(&[2]);
    assert_eq!(merge_base(&g, &one_side, &id(2), &id(3)).unwrap_err(), Error::NoCommonAncestor);
    let missing_root = graph(vec![commit(2, &[1]), commit(3, &[1])]);
    assert_eq!(merge_base(&missing_root, &boundary(&[1]), &id(2), &id(3)).unwrap(), id(1));
}

#[test]
fn merge_bases_of_many_are_common_to_all() {
    let g = graph(vec![
        commit(1, &[]),
        commit(2, &[1]),
        commit(3, &[2]),
        commit(4, &[2]),
        commit(5, &[1]),
    ]);
    assert_eq!(merge_bases(&g, &none(), &id(3), &vec![id(4)]).unwrap(), vec![id(2)]);
    assert_eq!(merge_bases(&g, &none(), &id(3), &vec![id(4), id(5)]).unwrap(), vec![id(1)]);
    assert_eq!(merge_bases(&g, &none(), &id(5), &vec![id(3), id(4)]).unwrap(), vec![id(1)]);
}

#[test]
fn merge_bases_of_one_commit_is_the_commit() {
    let g = diamond();
    assert_eq!(merge_bases(&g, &none(), &id(4), &Vec::new()).unwrap(), vec![id(4)]);
    assert_eq!(merge_bases(&g, &none(), &id(4), &vec![id(4), id(4)]).unwrap(), vec![id(4)]);
    assert_eq!(merge_bases(&CommitGraph::new(), &none(), &id(9), &Vec::new()).unwrap(), vec![id(9)]);
}

#[test]
fn octopus_of_no_commit_is_invalid() {
    assert_eq!(
        merge_base_octopus(&diamond(), &none(), &Vec::new()).unwrap_err(),
        Error::InvalidInput
    );
}

#[test]
fn octopus_of_one_commit_is_the_commit() {
    assert_eq!(merge_base_octopus(&diamond(), &none(), &vec![id(3)]).unwrap(), id(3));
    assert_eq!(merge_base_octopus(&CommitGraph::new(), &none(), &vec![id(9)]).unwrap(), id(9));
}

#[test]
fn octopus_folds_from_the_left() {
    let g = graph(vec![
        commit(1, &[]),
        commit(2, &[1]),
        commit(3, &[2]),
        commit(4, &[2]),
        commit(5, &[1]),
    ]);
    assert_eq!(merge_base_octopus(&g, &none(), &vec![id(3), id(4)]).unwrap(), id(2));
    assert_eq!(merge_base_octopus(&g, &none(), &vec![id(3), id(4), id(5)]).unwrap(), id(1));
    assert_eq!(merge_base_octopus(&g, &none(), &vec![id(5), id(4), id(3)]).unwrap(), id(1));
    let g = criss_cross();
    assert_eq!(merge_base_octopus(&g, &none(), &vec![id(5), id(6), id(4)]).unwrap(), id(2));
}

#[test]
fn octopus_fails_where_a_step_finds_no_common_ancestor() {
    let g = graph(vec![commit(1, &[]), commit(2, &[1]), commit(3, &[1]), commit(7, &[])]);
    assert_eq!(
        merge_base_octopus(&g, &none(), &vec![id(2), id(3), id(7)]).unwrap_err(),
        Error::NoCommonAncestor
    );
    assert_eq!(
        merge_base_octopus(&g, &none(), &vec![id(2), id(7), id(3)]).unwrap_err(),
        Error::NoCommonAncestor
    );
    assert_eq!(
        merge_base_octopus(&g, &none(), &vec![id(2), id(9)]).unwrap_err(),
        Error::ObjectNotFound
    );
}

#[test]
fn insert_sorted_keeps_order_and_skips_what_is_held() {
    let mut sorted = Vec::new();
    for n in [5u8, 1, 9, 5, 3, 1] {
        insert_sorted(&mut sorted, id(n));
    }
    assert_eq!(sorted, vec![id(1), id(3), id(5), id(9)]);
}

#[test]
fn retain_members_keeps_the_common_ids() {
    let kept = retain_members(&vec![id(4), id(1), id(3)], &vec![id(3), id(4), id(7)]);
    assert_eq!(kept, vec![id(4), id(3)]);
    assert!(retain_members(&vec![id(1)], &Vec::new()).is_empty());
}

#[test]
fn linked_from_other_looks_at_the_parents_of_the_others() {
    let g = diamond();
    let among = vec![id(1), id(2)];
    assert!(is_linked_from_other(&g, &none(), &among, &id(1)));
    assert!(!is_linked_from_other(&g, &none(), &among, &id(2)));
    assert!(!is_linked_from_other(&g, &boundary(&[2]), &among, &id(1)));
    let own = graph(vec![commit(1, &[1])]);
    assert!(!is_linked_from_other(&own, &none(), &vec![id(1)], &id(1)));
}

#[test]
fn merge_base_within_gives_up_on_a_long_history() {
    let g = criss_cross();
    assert_eq!(merge_base_within(&g, &none(), &id(5), &id(6), 5).unwrap(), id(3));
    assert_eq!(merge_base_within(&g, &none(), &id(5), &id(6), 100).unwrap(), id(3));
    assert_eq!(merge_base_within(&g, &none(), &id(5), &id(6), 4).unwrap_err(), Error::TimedOut);
    assert_eq!(merge_base_within(&g, &none(), &id(5), &id(6), 0).unwrap_err(), Error::TimedOut);
    assert_eq!(merge_base_within(&g, &none(), &id(5), &id(5), 0).unwrap(), id(5));
    assert_eq!(merge_base_within(&g, &none(), &id(2), &id(1), 2).unwrap(), id(1));
}

#[test]
fn merge_base_within_keeps_the_other_failures() {
    let g = graph(vec![commit(1, &[]), commit(2, &[1]), commit(7, &[])]);
    assert_eq!(
        merge_base_within(&g, &none(), &id(2), &id(7), 10).unwrap_err(),
        Error::NoCommonAncestor
    );
    assert_eq!(
        merge_base_within(&g, &none(), &id(2), &id(9), 10).unwrap_err(),
        Error::ObjectNotFound
    );
}

#[test]
fn merge_bases_within_gives_up_on_a_long_history() {
    let g = criss_cross();
    assert_eq!(
        merge_bases_within(&g, &none(), &id(5), &vec![id(6)], 5).unwrap(),
        vec![id(3), id(4)]
    );
    assert_eq!(
        merge_bases_within(&g, &none(), &id(5), &vec![id(6)], 3).unwrap_err(),
        Error::TimedOut
    );
    assert_eq!(
        merge_bases_within(&g, &none(), &id(1), &vec![id(6)], 1).unwrap_err(),
        Error::TimedOut
    );
    assert_eq!(merge_bases_within(&g, &none(), &id(5), &Vec::new(), 0).unwrap(), vec![id(5)]);
    assert_eq!(
        merge_bases_within(&g, &boundary(&[5, 6]), &id(5), &vec![id(6)], 1).unwrap(),
        Vec::<ObjectId>::new()
    );
}

#[test]
fn octopus_within_gives_up_on_a_long_history() {
    let g = criss_cross();
    let tips = vec![id(5), id(6), id(4)];
    assert_eq!(merge_base_octopus_within(&g, &none(), &tips, 5).unwrap(), id(2));
    assert_eq!(merge_base_octopus_within(&g, &none(), &tips, 4).unwrap_err(), Error::TimedOut);
    assert_eq!(
        merge_base_octopus_within(&g, &none(), &Vec::new(), 4).unwrap_err(),
        Error::InvalidInput
    );
    assert_eq!(merge_base_octopus_within(&g, &none(), &vec![id(6)], 0).unwrap(), id(6));
}
