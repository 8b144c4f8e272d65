use gitmeta::error::Error;
use gitmeta::graph::{CommitGraph, CommitNode, ShallowBoundary};
use gitmeta::object_id::ObjectId;
use gitmeta::repository::Repository;
use gitmeta::shallow::parse_shallow;
use gitmeta::walk::{ancestors_within, unresolved_ancestor, walk_within};

fn hex(n: u8) -> String {
    format!("{:02x}", n).repeat(20)
}

fn id(n: u8) -> ObjectId {
    ObjectId::from_bytes(vec![n; 20]).unwrap()
}

fn chain(length: u8) -> CommitGraph {
    let mut graph = CommitGraph::new();
    for n in 1..=length {
        let parents = if n == 1 { Vec::new() } else { vec![id(n - 1)] };
        graph.insert(CommitNode { id: id(n), parents, generation: Some(n as u32) });
    }
    graph
}

#[test]
fn shallow_text_is_one_id_per_line() {
    let text = format!("{}\n{}\n", hex(1), hex(2));
    let boundary = parse_shallow(text.as_bytes()).unwrap();
    assert_eq!(boundary.ids(), vec![id(1), id(2)]);
    assert!(boundary.contains(&id(1)));
    assert!(!boundary.contains(&id(3)));
}

#[test]
fn last_line_may_end_without_newline() {
    let text = format!("{}\n{}", hex(1), hex(2));
    assert_eq!(parse_shallow(text.as_bytes()).unwrap().ids(), vec![id(1), id(2)]);
    assert_eq!(parse_shallow(hex(3).as_bytes()).unwrap().ids(), vec![id(3)]);
}

#[test]
fn empty_shallow_text_is_the_empty_boundary() {
    assert!(parse_shallow(b"").unwrap().is_empty());
}

#[test]
fn repeated_line_counts_once() {
    let text = format!("{}\n{}\n{}\n", hex(1), hex(2), hex(1).to_uppercase());
    assert_eq!(parse_shallow(text.as_bytes()).unwrap().ids(), vec![id(1), id(2)]);
}

#[test]
fn malformed_line_is_invalid() {
    for text in [
        "\n".to_string(),
        format!("{}\n\n", hex(1)),
        format!("{}\n\n{}\n", hex(1), hex(2)),
        format!("{} \n", hex(1)),
        format!("{}\r\n", hex(1)),
        format!("{}\nabc\n", hex(1)),
        format!("\n{}", hex(1)),
    ] {
        assert_eq!(parse_shallow(text.as_bytes()).err(), Some(Error::InvalidInput));
    }
}

#[test]
fn repository_tells_whether_it_is_shallow() {
    let mut repo = Repository::new(5);
    assert!(!repo.is_shallow());
    assert_eq!(repo.shallow_commits(), None);
    repo.shallow = parse_shallow(format!("{}\n{}\n", hex(9), hex(4)).as_bytes()).unwrap();
    assert!(repo.is_shallow());
    assert_eq!(repo.shallow_commits(), Some(vec![hex(9), hex(4)]));
}

#[test]
fn walk_within_gives_up_beyond_its_steps() {
    let g = chain(5);
    let none = ShallowBoundary::new();
    assert_eq!(ancestors_within(&g, &none, &id(5), 5).unwrap().len(), 5);
    assert_eq!(ancestors_within(&g, &none, &id(5), 100).unwrap().len(), 5);
    assert_eq!(ancestors_within(&g, &none, &id(5), 4).unwrap_err(), Error::TimedOut);
    assert_eq!(ancestors_within(&g, &none, &id(5), 0).unwrap_err(), Error::TimedOut);
    assert_eq!(ancestors_within(&g, &none, &id(2), 2).unwrap(), vec![id(2), id(1)]);
    assert_eq!(walk_within(&g, &none, &id(3), 3).unwrap().len(), 3);
    assert_eq!(walk_within(&g, &none, &id(3), 2).err(), Some(Error::TimedOut));
}

#[test]
fn walk_within_counts_up_to_the_boundary_only() {
    let g = chain(5);
    let mut cut = ShallowBoundary::new();
    cut.insert(id(4));
    assert_eq!(ancestors_within(&g, &cut, &id(5), 2).unwrap(), vec![id(5), id(4)]);
    assert_eq!(ancestors_within(&g, &cut, &id(5), 1).unwrap_err(), Error::TimedOut);
}

#[test]
fn walk_within_reports_a_missing_commit() {
    let mut g = CommitGraph::new();
    g.insert(CommitNode { id: id(2), parents: vec![id(1)], generation: None });
    let none = ShallowBoundary::new();
    assert_eq!(ancestors_within(&g, &none, &id(2), 10).unwrap_err(), Error::ObjectNotFound);
    assert_eq!(ancestors_within(&g, &none, &id(9), 10).unwrap_err(), Error::ObjectNotFound);
}

#[test]
fn unresolved_ancestor_names_what_to_fetch() {
    let mut g = CommitGraph::new();
    let none = ShallowBoundary::new();
    assert_eq!(unresolved_ancestor(&g, &none, &id(3)), Some(id(3)));
    g.insert(CommitNode { id: id(3), parents: vec![id(2)], generation: None });
    assert_eq!(unresolved_ancestor(&g, &none, &id(3)), Some(id(2)));
    g.insert(CommitNode { id: id(2), parents: vec![id(1)], generation: None });
    assert_eq!(unresolved_ancestor(&g, &none, &id(3)), Some(id(1)));
    let mut cut = ShallowBoundary::new();
    cut.insert(id(2));
    assert_eq!(unresolved_ancestor(&g, &cut, &id(3)), None);
    g.insert(CommitNode { id: id(1), parents: Vec::new(), generation: None });
    assert_eq!(unresolved_ancestor(&g, &none, &id(3)), None);
}
