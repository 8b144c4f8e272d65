//! The repository as one value: its references, the commits it knows, and
//! its shallow boundary. Every operation takes it as an argument: there
//! is no repository that a process has by default.

use vstd::prelude::*;
use crate::graph::{id_models, CommitGraph, ShallowBoundary};
use crate::object_id::hex_text;
use crate::repository::revisions::{hex_texts, string_models, to_hex_texts};
use crate::refs::{Reference, ReferenceModel, Target, TargetModel};
use crate::store::RefStore;

pub mod references;
pub mod revisions;

verus! {

/// A reference as text, as a value.
pub struct GitReferenceModel {
    pub name: Seq<char>,
    pub target: Seq<char>,
    pub is_symbolic: bool,
}

/// A reference as text: its name, and its target either as the hexadecimal
/// form of an object id or as the name of another reference.
#[derive(Debug)]
pub struct GitReference {
    pub name: String,
    pub target: String,
    pub is_symbolic: bool,
}

impl View for GitReference {
    type V = GitReferenceModel;

    open spec fn view(&self) -> GitReferenceModel {
        GitReferenceModel { name: self.name@, target: self.target@, is_symbolic: self.is_symbolic }
    }
}

/// The text form of a reference.
pub open spec fn describe(reference: ReferenceModel) -> GitReferenceModel {
    match reference.target {
        TargetModel::Direct(id) => GitReferenceModel {
            name: reference.name,
            target: hex_text(id),
            is_symbolic: false,
        },
        TargetModel::Symbolic(name) => GitReferenceModel {
            name: reference.name,
            target: name,
            is_symbolic: true,
        },
    }
}

impl GitReference {
    /// Put a reference into text.
    pub fn from_reference(reference: &Reference) -> (described: GitReference)
        ensures
            described@ == describe(reference@),
    {
        match &reference.target {
            Target::Direct(id) => GitReference {
                name: reference.name.text().clone(),
                target: id.to_hex(),
                is_symbolic: false,
            },
            Target::Symbolic(name) => GitReference {
                name: reference.name.text().clone(),
                target: name.text().clone(),
                is_symbolic: true,
            },
        }
    }
}

/// A repository's metadata.
pub struct Repository {
    /// The references and their logs.
    pub refs: RefStore,
    /// The commits that are known.
    pub graph: CommitGraph,
    /// The commits whose parents are not present. Empty unless the
    /// repository is shallow.
    pub shallow: ShallowBoundary,
}

impl Repository {
    /// A repository without references and commits, in which a chain of at
    /// most `max_depth` symbolic references is followed.
    pub fn new(max_depth: usize) -> (repository: Repository)
        ensures
            repository.refs@.refs == Map::<Seq<char>, TargetModel>::empty(),
            repository.refs@.logs.dom() == Set::<Seq<char>>::empty(),
            repository.refs@.max_depth == max_depth,
            repository.graph@.dom() == Set::<Seq<u8>>::empty(),
            repository.shallow@ == Set::<Seq<u8>>::empty(),
    {
        Repository {
            refs: RefStore::new(max_depth),
            graph: CommitGraph::new(),
            shallow: ShallowBoundary::new(),
        }
    }

    /// Whether the repository is shallow: whether there are commits whose
    /// parents are not present.
    pub fn is_shallow(&self) -> (shallow: bool)
        ensures
            shallow == (self.shallow@ != Set::<Seq<u8>>::empty()),
    {
        !self.shallow.is_empty()
    }

    /// The commits of the shallow boundary, each once and in hexadecimal
    /// form, or `None` if the repository is not shallow.
    pub fn shallow_commits(&self) -> (commits: Option<Vec<String>>)
        ensures
            commits is None <==> self.shallow@ == Set::<Seq<u8>>::empty(),
            commits matches Some(texts) ==> exists|ids: Seq<Seq<u8>>|
                {
                    &&& ids.no_duplicates()
                    &&& ids.to_set() == self.shallow@
                    &&& #[trigger] hex_texts(ids) == string_models(texts@)
                },
    {
        if self.shallow.is_empty() {
            None
        } else {
            let ids = self.shallow.ids();
            let texts = to_hex_texts(&ids);
            assert(hex_texts(id_models(ids@)) == string_models(texts@));
            Some(texts)
        }
    }
}

} // verus!
