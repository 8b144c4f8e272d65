//! Reading and creating references, by name and as text.

use vstd::prelude::*;
use vstd::string::StringExecFns;
use crate::error::Error;
use crate::object_id::{id_of_text, is_id_text, ObjectId};
use crate::refname::{is_ref_name, RefName};
use crate::refs::{
    EditModel, Expected, ExpectedModel, RefEdit, Reference, ReferenceModel, Target, TargetModel,
};
use crate::repository::{describe, GitReference, Repository};
use crate::store::{head_reference, store_after, transaction_outcome};
use crate::time::Time;

verus! {

/// The edit that creates the reference `name` with `target`: it overwrites
/// whatever exists if `force` is set and expects that nothing exists if it
/// is not, and it records the change in the log as `create: ` and the name.
pub open spec fn creation(name: Seq<char>, target: TargetModel, force: bool) -> EditModel {
    EditModel {
        name,
        expected: if force {
            ExpectedModel::Any
        } else {
            ExpectedModel::MustNotExist
        },
        new_target: Some(target),
        log_message: "create: "@ + name,
        write_reflog: true,
        delete_reflog: false,
    }
}

/// The target that the text stands for: the name of a reference if the new
/// reference is symbolic, the hexadecimal form of an object id if not.
pub open spec fn target_of_text(target: Seq<char>, is_symbolic: bool) -> Option<TargetModel> {
    if is_symbolic {
        if is_ref_name(target) {
            Some(TargetModel::Symbolic(target))
        } else {
            None
        }
    } else {
        if is_id_text(target) {
            Some(TargetModel::Direct(id_of_text(target)))
        } else {
            None
        }
    }
}

impl Repository {
    /// Find a reference by its full name.
    ///
    /// Fails with [`Error::InvalidInput`] if `name` is not the name of a
    /// reference, and with [`Error::NotFound`] if no such reference exists.
    pub fn find_reference(&self, name: &str) -> (found: Result<GitReference, Error>)
        ensures
            !is_ref_name(name@) ==> found is Err && found->Err_0 == Error::InvalidInput,
            is_ref_name(name@) && !self.refs@.refs.contains_key(name@) ==> found is Err
                && found->Err_0 == Error::NotFound,
            is_ref_name(name@) && self.refs@.refs.contains_key(name@) ==> found is Ok
                && found->Ok_0@ == describe(
                ReferenceModel { name: name@, target: self.refs@.refs[name@] },
            ),
    {
        let valid = match RefName::new(name) {
            Ok(valid) => valid,
            Err(e) => {
                return Err(e);
            },
        };
        match self.refs.find(valid.as_str()) {
            Some(reference) => Ok(GitReference::from_reference(&reference)),
            None => Err(Error::NotFound),
        }
    }

    /// All references, as text.
    pub fn references(&self) -> (all: Vec<GitReference>)
        ensures
            all@.len() == self.refs.listing().len(),
            forall|i: int|
                0 <= i < all@.len() ==> (#[trigger] all@[i])@ == describe(self.refs.listing()[i]),
            forall|i: int|
                0 <= i < all@.len() ==> self.refs@.refs.contains_key(#[trigger] all@[i].name@)
                    && all@[i]@ == describe(
                    ReferenceModel { name: all@[i].name@, target: self.refs@.refs[all@[i].name@] },
                ),
            forall|i: int, j: int| 0 <= i < j < all@.len() ==> all@[i].name@ != all@[j].name@,
            forall|name: Seq<char>|
                self.refs@.refs.contains_key(name) ==> exists|i: int|
                    0 <= i < all@.len() && #[trigger] all@[i].name@ == name,
    {
        let held = self.refs.references();
        let mut all: Vec<GitReference> = Vec::new();
        let mut i: usize = 0;
        while i < held.len()
            invariant
                i <= held@.len(),
                all@.len() == i,
                forall|k: int| 0 <= k < i ==> (#[trigger] all@[k])@ == describe(held@[k]@),
            decreases held@.len() - i,
        {
            all.push(GitReference::from_reference(&held[i]));
            i += 1;
        }
        proof {
            assert forall|k: int| 0 <= k < all@.len() implies (#[trigger] all@[k])@ == describe(
                self.refs.listing()[k],
            ) by {
                assert(crate::refs::reference_models(held@)[k] == held@[k]@);
            }
            assert forall|k: int| 0 <= k < all@.len() implies (#[trigger] all@[k]).name@
                == held@[k].name@ by {
                assert(all@[k]@ == describe(held@[k]@));
            }
            assert forall|name: Seq<char>| self.refs@.refs.contains_key(name) implies exists|
                i: int,
            |
                0 <= i < all@.len() && #[trigger] all@[i].name@ == name by {
                let k = choose|k: int| 0 <= k < held@.len() && #[trigger] held@[k].name@ == name;
                assert(all@[k].name@ == name);
            }
        }
        all
    }

    /// The names of all references.
    pub fn reference_names(&self) -> (names: Vec<String>)
        ensures
            names@.len() == self.refs.listing().len(),
            forall|i: int|
                0 <= i < names@.len() ==> (#[trigger] names@[i])@ == self.refs.listing()[i].name,
            forall|i: int|
                0 <= i < names@.len() ==> self.refs@.refs.contains_key(#[trigger] names@[i]@),
            forall|i: int, j: int| 0 <= i < j < names@.len() ==> names@[i]@ != names@[j]@,
            forall|name: Seq<char>|
                self.refs@.refs.contains_key(name) ==> exists|i: int|
                    0 <= i < names@.len() && #[trigger] names@[i]@ == name,
    {
        let held = self.refs.references();
        let mut names: Vec<String> = Vec::new();
        let mut i: usize = 0;
        while i < held.len()
            invariant
                i <= held@.len(),
                names@.len() == i,
                forall|k: int| 0 <= k < i ==> (#[trigger] names@[k])@ == held@[k].name@,
            decreases held@.len() - i,
        {
            names.push(held[i].name.text().clone());
            i += 1;
        }
        proof {
            assert forall|k: int| 0 <= k < names@.len() implies (#[trigger] names@[k])@
                == self.refs.listing()[k].name by {
                assert(crate::refs::reference_models(held@)[k] == held@[k]@);
            }
            assert forall|name: Seq<char>| self.refs@.refs.contains_key(name) implies exists|
                i: int,
            |
                0 <= i < names@.len() && #[trigger] names@[i]@ == name by {
                let k = choose|k: int| 0 <= k < held@.len() && #[trigger] held@[k].name@ == name;
                assert(names@[k]@ == name);
            }
        }
        names
    }

    /// The name of the reference that `HEAD` points to.
    ///
    /// Fails with [`Error::NotFound`] if `HEAD` is not set: if it does not
    /// exist, points to an object itself, or names a reference that does
    /// not exist.
    pub fn head(&self) -> (name: Result<String, Error>)
        ensures
            match head_reference(self.refs@) {
                Some(reference) => name is Ok && name->Ok_0@ == reference.name,
                None => name is Err && name->Err_0 == Error::NotFound,
            },
    {
        match self.refs.head_ref() {
            Some(reference) => Ok(reference.name.text().clone()),
            None => Err(Error::NotFound),
        }
    }

    /// Create the reference `name`, pointing to `target`: the name of
    /// another reference if `is_symbolic` is set, and else an object id in
    /// hexadecimal form. With `force` a reference that exists is
    /// overwritten. The target of a symbolic reference is not looked up.
    ///
    /// Fails with [`Error::InvalidInput`] if `name` is not the name of a
    /// reference or `target` is not what `is_symbolic` calls for, and with
    /// [`Error::PreconditionFailed`] if the reference exists and `force` is
    /// not set. Where it fails, nothing has changed.
    pub fn create_reference(
        &mut self,
        name: &str,
        target: &str,
        is_symbolic: bool,
        force: bool,
        now: Time,
    ) -> (created: Result<GitReference, Error>)
        ensures
            final(self).graph@ == old(self).graph@,
            final(self).shallow@ == old(self).shallow@,
            match target_of_text(target@, is_symbolic) {
                Some(new_target) => if is_ref_name(name@) {
                    let edits = seq![creation(name@, new_target, force)];
                    &&& final(self).refs@ == store_after(old(self).refs@, edits, now)
                    &&& match transaction_outcome(old(self).refs@, edits, now) {
                        Ok(_) => created is Ok && created->Ok_0@ == describe(
                            ReferenceModel { name: name@, target: new_target },
                        ),
                        Err(e) => created is Err && created->Err_0 == e,
                    }
                } else {
                    &&& final(self).refs@ == old(self).refs@
                    &&& created is Err
                    &&& created->Err_0 == Error::InvalidInput
                },
                None => {
                    &&& final(self).refs@ == old(self).refs@
                    &&& created is Err
                    &&& created->Err_0 == Error::InvalidInput
                },
            },
    {
        let new_target = if is_symbolic {
            match RefName::new(target) {
                Ok(target_name) => Target::Symbolic(target_name),
                Err(e) => {
                    return Err(e);
                },
            }
        } else {
            match ObjectId::parse(target) {
                Ok(id) => Target::Direct(id),
                Err(e) => {
                    return Err(e);
                },
            }
        };
        let full_name = match RefName::new(name) {
            Ok(full_name) => full_name,
            Err(e) => {
                return Err(e);
            },
        };
        let mut log_message = String::from_str("create: ");
        log_message.append(name);
        let reference = Reference { name: full_name.clone(), target: new_target.clone() };
        let edit = RefEdit {
            name: full_name,
            expected: if force {
                Expected::Any
            } else {
                Expected::MustNotExist
            },
            new_target: Some(new_target),
            log_message,
            write_reflog: true,
            delete_reflog: false,
        };
        let mut edits: Vec<RefEdit> = Vec::new();
        edits.push(edit);
        assert(crate::refs::edit_models(edits@) =~= seq![
            creation(name@, reference@.target, force),
        ]);
        match self.refs.apply_transaction(edits, now) {
            Ok(_) => Ok(GitReference::from_reference(&reference)),
            Err(e) => Err(e),
        }
    }
}

} // verus!
