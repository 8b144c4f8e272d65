//! Merge bases of commits given as text.

use vstd::prelude::*;
use crate::error::Error;
use crate::graph::id_models;
use crate::merge_base::{
    all_same, all_walkable, ascending, is_merge_base, merge_base, merge_base_octopus,
    merge_base_outcome, merge_bases, octopus_outcome, tips_of,
};
use crate::object_id::{hex_text, id_of_text, is_id_text, ObjectId};
use crate::repository::Repository;

verus! {

/// Every one of the strings is the hexadecimal form of an object id.
pub open spec fn all_id_texts(texts: Seq<String>) -> bool {
    forall|k: int| 0 <= k < texts.len() ==> is_id_text(#[trigger] texts[k]@)
}

/// The ids that the strings are the hexadecimal forms of.
pub open spec fn ids_of_texts(texts: Seq<String>) -> Seq<Seq<u8>> {
    texts.map_values(|text: String| id_of_text(text@))
}

/// The hexadecimal forms of the ids.
pub open spec fn hex_texts(ids: Seq<Seq<u8>>) -> Seq<Seq<char>> {
    ids.map_values(|id: Seq<u8>| hex_text(id))
}

/// The characters of each of the strings.
pub open spec fn string_models(texts: Seq<String>) -> Seq<Seq<char>> {
    texts.map_values(|text: String| text@)
}

/// Read a list of object ids. Where one of the strings is not the
/// hexadecimal form of an id, the place of the first such string is
/// returned instead.
pub fn parse_object_ids(texts: &Vec<String>) -> (parsed: Result<Vec<ObjectId>, usize>)
    ensures
        parsed is Ok <==> all_id_texts(texts@),
        parsed matches Ok(ids) ==> id_models(ids@) == ids_of_texts(texts@),
        parsed matches Err(at) ==> {
            &&& at < texts@.len()
            &&& !is_id_text(texts@[at as int]@)
            &&& forall|k: int| 0 <= k < at ==> is_id_text(#[trigger] texts@[k]@)
        },
{
    let mut ids: Vec<ObjectId> = Vec::new();
    let mut i: usize = 0;
    while i < texts.len()
        invariant
            i <= texts@.len(),
            ids@.len() == i,
            forall|k: int| 0 <= k < i ==> is_id_text(#[trigger] texts@[k]@),
            forall|k: int| 0 <= k < i ==> (#[trigger] ids@[k])@ == id_of_text(texts@[k]@),
        decreases texts@.len() - i,
    {
        match ObjectId::parse(texts[i].as_str()) {
            Ok(id) => {
                ids.push(id);
            },
            Err(_) => {
                return Err(i);
            },
        }
        i += 1;
    }
    assert(id_models(ids@) =~= ids_of_texts(texts@));
    Ok(ids)
}

/// The hexadecimal forms of a list of ids.
pub fn to_hex_texts(ids: &Vec<ObjectId>) -> (texts: Vec<String>)
    ensures
        string_models(texts@) == hex_texts(id_models(ids@)),
{
    let mut texts: Vec<String> = Vec::new();
    let mut i: usize = 0;
    while i < ids.len()
        invariant
            i <= ids@.len(),
            texts@.len() == i,
            forall|k: int| 0 <= k < i ==> (#[trigger] texts@[k])@ == hex_text(ids@[k]@),
        decreases ids@.len() - i,
    {
        texts.push(ids[i].to_hex());
        i += 1;
    }
    assert(string_models(texts@) =~= hex_texts(id_models(ids@)));
    texts
}

impl Repository {
    /// All merge bases of the commit `one` and the commits `others`, in
    /// ascending order, each in hexadecimal form.
    ///
    /// Fails with [`Error::InvalidInput`] if one of the strings is not the
    /// hexadecimal form of an object id, and with
    /// [`Error::ObjectNotFound`] if the history of one of the commits
    /// cannot be read.
    pub fn merge_bases(&self, one: &str, others: Vec<String>) -> (found: Result<Vec<String>, Error>)
        ensures
            !(is_id_text(one@) && all_id_texts(others@)) ==> found is Err && found->Err_0
                == Error::InvalidInput,
            is_id_text(one@) && all_id_texts(others@) ==> {
                let tips = tips_of(id_of_text(one@), ids_of_texts(others@));
                &&& found is Ok <==> all_same(tips) || all_walkable(
                    self.graph@,
                    self.shallow@,
                    tips,
                )
                &&& found matches Err(e) ==> e == Error::ObjectNotFound
                &&& found matches Ok(texts) ==> exists|bases: Seq<Seq<u8>>|
                    {
                        &&& ascending(bases)
                        &&& forall|id: Seq<u8>|
                            bases.contains(id) <==> is_merge_base(
                                self.graph@,
                                self.shallow@,
                                tips,
                                id,
                            )
                        &&& #[trigger] hex_texts(bases) == string_models(texts@)
                    }
            },
    {
        let first = match ObjectId::parse(one) {
            Ok(id) => id,
            Err(e) => {
                return Err(e);
            },
        };
        let rest = match parse_object_ids(&others) {
            Ok(ids) => ids,
            Err(_) => {
                return Err(Error::InvalidInput);
            },
        };
        match merge_bases(&self.graph, &self.shallow, &first, &rest) {
            Ok(bases) => {
                let texts = to_hex_texts(&bases);
                assert(hex_texts(id_models(bases@)) == string_models(texts@));
                Ok(texts)
            },
            Err(e) => Err(e),
        }
    }

    /// The merge base of two commits, in hexadecimal form.
    ///
    /// Fails with [`Error::InvalidInput`] if one of the strings is not the
    /// hexadecimal form of an object id; else as
    /// [`merge_base`](crate::merge_base::merge_base) does.
    pub fn merge_base(&self, one: &str, two: &str) -> (found: Result<String, Error>)
        ensures
            !(is_id_text(one@) && is_id_text(two@)) ==> found is Err && found->Err_0
                == Error::InvalidInput,
            is_id_text(one@) && is_id_text(two@) ==> match merge_base_outcome(
                self.graph@,
                self.shallow@,
                id_of_text(one@),
                id_of_text(two@),
            ) {
                Ok(id) => found is Ok && found->Ok_0@ == hex_text(id),
                Err(e) => found is Err && found->Err_0 == e,
            },
    {
        let first = match ObjectId::parse(one) {
            Ok(id) => id,
            Err(e) => {
                return Err(e);
            },
        };
        let second = match ObjectId::parse(two) {
            Ok(id) => id,
            Err(e) => {
                return Err(e);
            },
        };
        match merge_base(&self.graph, &self.shallow, &first, &second) {
            Ok(id) => Ok(id.to_hex()),
            Err(e) => Err(e),
        }
    }

    /// The octopus merge base of the commits, in hexadecimal form.
    ///
    /// Fails with [`Error::InvalidInput`] if there is no commit or one of
    /// the strings is not the hexadecimal form of an object id; else as
    /// [`merge_base_octopus`](crate::merge_base::merge_base_octopus) does.
    pub fn merge_base_octopus(&self, commits: Vec<String>) -> (found: Result<String, Error>)
        ensures
            commits@.len() == 0 || !all_id_texts(commits@) ==> found is Err && found->Err_0
                == Error::InvalidInput,
            commits@.len() > 0 && all_id_texts(commits@) ==> match octopus_outcome(
                self.graph@,
                self.shallow@,
                ids_of_texts(commits@),
            ) {
                Ok(id) => found is Ok && found->Ok_0@ == hex_text(id),
                Err(e) => found is Err && found->Err_0 == e,
            },
    {
        if commits.len() == 0 {
            return Err(Error::InvalidInput);
        }
        let ids = match parse_object_ids(&commits) {
            Ok(ids) => ids,
            Err(_) => {
                return Err(Error::InvalidInput);
            },
        };
        match merge_base_octopus(&self.graph, &self.shallow, &ids) {
            Ok(id) => Ok(id.to_hex()),
            Err(e) => Err(e),
        }
    }
}

} // verus!
