//! References, the edits that change them, and the entries of their logs,
//! each with the mathematical value that contracts speak of.

use vstd::prelude::*;
use vstd::std_specs::cmp::PartialEqSpecImpl;
use crate::object_id::ObjectId;
use crate::refname::RefName;
use crate::time::Time;

verus! {

/// What a reference points to, as a value: the bytes of an object id, or the
/// characters of another reference's name.
pub enum TargetModel {
    Direct(Seq<u8>),
    Symbolic(Seq<char>),
}

/// A reference as a value.
pub struct ReferenceModel {
    pub name: Seq<char>,
    pub target: TargetModel,
}

/// An entry of a reference's log as a value.
pub struct LogEntryModel {
    pub old: Option<Seq<u8>>,
    pub new: Seq<u8>,
    pub message: Seq<char>,
    pub timestamp: Time,
}

/// The expectation of an edit as a value.
pub enum ExpectedModel {
    Any,
    MustNotExist,
    MustExistAndMatch(Seq<u8>),
    MustExistAndMatchSymbolic(Seq<char>),
}

/// An edit as a value.
pub struct EditModel {
    pub name: Seq<char>,
    pub expected: ExpectedModel,
    pub new_target: Option<TargetModel>,
    pub log_message: Seq<char>,
    pub write_reflog: bool,
    pub delete_reflog: bool,
}

/// What a reference points to.
#[derive(Debug)]
pub enum Target {
    /// An object, by its id.
    Direct(ObjectId),
    /// Another reference, by its name. It is followed when the reference is
    /// read, never when it is written.
    Symbolic(RefName),
}

impl View for Target {
    type V = TargetModel;

    open spec fn view(&self) -> TargetModel {
        match self {
            Target::Direct(id) => TargetModel::Direct(id@),
            Target::Symbolic(name) => TargetModel::Symbolic(name@),
        }
    }
}

impl Clone for Target {
    fn clone(&self) -> (copy: Target)
        ensures
            copy@ == self@,
    {
        match self {
            Target::Direct(id) => Target::Direct(id.clone()),
            Target::Symbolic(name) => Target::Symbolic(name.clone()),
        }
    }
}

impl PartialEq for Target {
    fn eq(&self, other: &Target) -> (same: bool) {
        match (self, other) {
            (Target::Direct(a), Target::Direct(b)) => a == b,
            (Target::Symbolic(a), Target::Symbolic(b)) => a == b,
            _ => false,
        }
    }
}

impl PartialEqSpecImpl for Target {
    open spec fn obeys_eq_spec() -> bool {
        true
    }

    open spec fn eq_spec(&self, other: &Target) -> bool {
        self@ == other@
    }
}

impl Eq for Target {}

/// A named pointer to a commit or to another reference.
#[derive(Debug)]
pub struct Reference {
    pub name: RefName,
    pub target: Target,
}

impl View for Reference {
    type V = ReferenceModel;

    open spec fn view(&self) -> ReferenceModel {
        ReferenceModel { name: self.name@, target: self.target@ }
    }
}

impl Clone for Reference {
    fn clone(&self) -> (copy: Reference)
        ensures
            copy@ == self@,
    {
        Reference { name: self.name.clone(), target: self.target.clone() }
    }
}

impl PartialEq for Reference {
    fn eq(&self, other: &Reference) -> (same: bool) {
        self.name == other.name && self.target == other.target
    }
}

impl PartialEqSpecImpl for Reference {
    open spec fn obeys_eq_spec() -> bool {
        true
    }

    open spec fn eq_spec(&self, other: &Reference) -> bool {
        self@ == other@
    }
}

impl Eq for Reference {}

/// The values of a sequence of references.
pub open spec fn reference_models(references: Seq<Reference>) -> Seq<ReferenceModel> {
    references.map_values(|r: Reference| r@)
}

/// What an edit expects of the reference before it is changed.
#[derive(Debug)]
pub enum Expected {
    /// Anything: the edit is never refused.
    Any,
    /// No reference of that name exists.
    MustNotExist,
    /// The reference exists and points directly to this object.
    MustExistAndMatch(ObjectId),
    /// The reference exists and points to the reference of this name.
    MustExistAndMatchSymbolic(RefName),
}

impl View for Expected {
    type V = ExpectedModel;

    open spec fn view(&self) -> ExpectedModel {
        match self {
            Expected::Any => ExpectedModel::Any,
            Expected::MustNotExist => ExpectedModel::MustNotExist,
            Expected::MustExistAndMatch(id) => ExpectedModel::MustExistAndMatch(id@),
            Expected::MustExistAndMatchSymbolic(name) => ExpectedModel::MustExistAndMatchSymbolic(
                name@,
            ),
        }
    }
}

impl Clone for Expected {
    fn clone(&self) -> (copy: Expected)
        ensures
            copy@ == self@,
    {
        match self {
            Expected::Any => Expected::Any,
            Expected::MustNotExist => Expected::MustNotExist,
            Expected::MustExistAndMatch(id) => Expected::MustExistAndMatch(id.clone()),
            Expected::MustExistAndMatchSymbolic(name) => Expected::MustExistAndMatchSymbolic(
                name.clone(),
            ),
        }
    }
}

/// One desired change of one reference. Edits are handed to a transaction,
/// which applies all of them or none.
#[derive(Debug)]
pub struct RefEdit {
    /// The reference to change.
    pub name: RefName,
    /// What must hold of the reference before the change.
    pub expected: Expected,
    /// The new target, or `None` to delete the reference.
    pub new_target: Option<Target>,
    /// The message of the log entry, if one is written.
    pub log_message: String,
    /// Whether a change to a direct target is recorded in the log.
    pub write_reflog: bool,
    /// Whether a deletion also drops the log. Without it the log stays.
    pub delete_reflog: bool,
}

impl View for RefEdit {
    type V = EditModel;

    open spec fn view(&self) -> EditModel {
        EditModel {
            name: self.name@,
            expected: self.expected@,
            new_target: match self.new_target {
                Some(target) => Some(target@),
                None => None,
            },
            log_message: self.log_message@,
            write_reflog: self.write_reflog,
            delete_reflog: self.delete_reflog,
        }
    }
}

/// The values of a sequence of edits.
pub open spec fn edit_models(edits: Seq<RefEdit>) -> Seq<EditModel> {
    edits.map_values(|e: RefEdit| e@)
}

/// One line of the history of a reference: the object it pointed to before,
/// if it pointed to one, the object it points to now, and why and when.
#[derive(Debug)]
pub struct ReflogEntry {
    pub old: Option<ObjectId>,
    pub new: ObjectId,
    pub message: String,
    pub timestamp: Time,
}

impl View for ReflogEntry {
    type V = LogEntryModel;

    open spec fn view(&self) -> LogEntryModel {
        LogEntryModel {
            old: match self.old {
                Some(id) => Some(id@),
                None => None,
            },
            new: self.new@,
            message: self.message@,
            timestamp: self.timestamp,
        }
    }
}

impl Clone for ReflogEntry {
    fn clone(&self) -> (copy: ReflogEntry)
        ensures
            copy@ == self@,
    {
        ReflogEntry {
            old: match &self.old {
                Some(id) => Some(id.clone()),
                None => None,
            },
            new: self.new.clone(),
            message: self.message.clone(),
            timestamp: self.timestamp,
        }
    }
}

/// The values of a sequence of log entries.
pub open spec fn entry_models(entries: Seq<ReflogEntry>) -> Seq<LogEntryModel> {
    entries.map_values(|e: ReflogEntry| e@)
}

} // verus!
