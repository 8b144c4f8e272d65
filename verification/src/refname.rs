//! Names of references: path-like strings such as `refs/heads/main`,
//! `refs/tags/v1` or `HEAD`.

use vstd::prelude::*;
use vstd::std_specs::cmp::PartialEqSpecImpl;
use vstd::string::StrSliceExecFns;
use crate::error::Error;

verus! {

/// The shape every reference name has: it is not empty, none of its
/// components between slashes is empty, it does not end in a slash, and it
/// holds no two dots in a row.
pub open spec fn well_shaped(name: Seq<char>) -> bool {
    &&& name.len() > 0
    &&& name[0] != '/'
    &&& name[name.len() - 1] != '/'
    &&& forall|i: int| 0 <= i < name.len() - 1 ==> !(#[trigger] name[i] == '/' && name[i + 1] == '/')
    &&& forall|i: int| 0 <= i < name.len() - 1 ==> !(#[trigger] name[i] == '.' && name[i + 1] == '.')
}

/// Whether `gix_ref::FullName::try_from` takes `name` as the full name of a
/// reference.
pub uninterp spec fn accepted_full_name(name: Seq<char>) -> bool;

/// True for the names that are the name of a reference: those that have
/// the shape of one and are accepted as a full name.
pub open spec fn is_ref_name(name: Seq<char>) -> bool {
    well_shaped(name) && accepted_full_name(name)
}

/// `gix_ref::FullName::try_from`, for the answer alone: whether the name
/// passes the validation that a full reference name gets there.
#[verifier::external_body]
fn full_name_is_accepted(name: &str) -> (accepted: bool)
    ensures
        accepted == accepted_full_name(name@),
{
    match gix_ref::FullName::try_from(name) {
        Ok(_) => true,
        Err(_) => false,
    }
}

/// Decide [`well_shaped`] for a string.
pub fn has_name_shape(name: &str) -> (shaped: bool)
    ensures
        shaped == well_shaped(name@),
{
    let n = name.unicode_len();
    if n == 0 {
        return false;
    }
    let first = name.get_char(0);
    if first == '/' {
        return false;
    }
    let mut previous = first;
    let mut i: usize = 1;
    while i < n
        invariant
            1 <= i <= n,
            n == name@.len(),
            previous == name@[i - 1],
            name@[0] != '/',
            forall|k: int| 0 <= k < i - 1 ==> !(#[trigger] name@[k] == '/' && name@[k + 1] == '/'),
            forall|k: int| 0 <= k < i - 1 ==> !(#[trigger] name@[k] == '.' && name@[k + 1] == '.'),
        decreases n - i,
    {
        let current = name.get_char(i);
        if (previous == '/' && current == '/') || (previous == '.' && current == '.') {
            return false;
        }
        previous = current;
        i += 1;
    }
    previous != '/'
}

/// The validated name of a reference.
#[derive(Debug)]
pub struct RefName {
    text: String,
}

impl View for RefName {
    type V = Seq<char>;

    /// The characters of the name.
    closed spec fn view(&self) -> Seq<char> {
        self.text@
    }
}

impl Clone for RefName {
    fn clone(&self) -> (copy: RefName)
        ensures
            copy@ == self@,
    {
        proof {
            use_type_invariant(self);
        }
        RefName { text: self.text.clone() }
    }
}

impl PartialEq for RefName {
    fn eq(&self, other: &RefName) -> (same: bool) {
        self.text == other.text
    }
}

impl PartialEqSpecImpl for RefName {
    open spec fn obeys_eq_spec() -> bool {
        true
    }

    open spec fn eq_spec(&self, other: &RefName) -> bool {
        self@ == other@
    }
}

impl Eq for RefName {}

impl RefName {
    #[verifier::type_invariant]
    spec fn well_formed(self) -> bool {
        well_shaped(self.text@) && accepted_full_name(self.text@)
    }

    /// Validate `name`. It becomes a reference name if and only if it has
    /// the shape of one and passes the validation of full reference names.
    pub fn new(name: &str) -> (made: Result<RefName, Error>)
        ensures
            made is Ok <==> is_ref_name(name@),
            made matches Ok(valid) ==> valid@ == name@,
            made matches Err(e) ==> e == Error::InvalidInput,
    {
        let accepted = full_name_is_accepted(name);
        RefName::checked(name, accepted)
    }

    /// Make a reference name of `name`, given whether the validation of
    /// full reference names accepted it: it becomes one if it was accepted
    /// and has the shape of a reference name.
    pub fn checked(name: &str, accepted: bool) -> (made: Result<RefName, Error>)
        requires
            accepted == accepted_full_name(name@),
        ensures
            made is Ok <==> well_shaped(name@) && accepted,
            made matches Ok(valid) ==> valid@ == name@,
            made matches Err(e) ==> e == Error::InvalidInput,
    {
        if accepted && has_name_shape(name) {
            Ok(RefName { text: name.to_owned() })
        } else {
            Err(Error::InvalidInput)
        }
    }

    /// True if the name is exactly `text`.
    pub fn has_text(&self, text: &String) -> (same: bool)
        ensures
            same == (self@ == text@),
    {
        self.text == *text
    }

    /// The name as an owned string, borrowed.
    pub fn text(&self) -> (text: &String)
        ensures
            text@ == self@,
    {
        &self.text
    }

    /// The name as text.
    pub fn as_str(&self) -> (text: &str)
        ensures
            text@ == self@,
            is_ref_name(self@),
    {
        proof {
            use_type_invariant(self);
        }
        self.text.as_str()
    }
}

} // verus!
