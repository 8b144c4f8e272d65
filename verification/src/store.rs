//! The reference store: which name points where, and the log of each name.
//! A store changes only through [`RefStore::apply_transaction`], which
//! applies every edit of a batch or none of them.

use vstd::prelude::*;
use crate::error::Error;
use crate::object_id::ObjectId;
use crate::refname::RefName;
use crate::refs::{
    edit_models, entry_models, reference_models, EditModel, ExpectedModel, LogEntryModel, RefEdit,
    Reference, ReferenceModel, ReflogEntry, Target, TargetModel, Expected,
};
use crate::time::Time;

verus! {

/// A reference store as a value.
pub struct StoreModel {
    /// The target of every reference that exists.
    pub refs: Map<Seq<char>, TargetModel>,
    /// The log of every name that has one, oldest entry first.
    pub logs: Map<Seq<char>, Seq<LogEntryModel>>,
    /// How many symbolic references may be followed when one is resolved.
    pub max_depth: nat,
}

impl StoreModel {
    /// The log of `name`, empty if it has none.
    pub open spec fn log_of(self, name: Seq<char>) -> Seq<LogEntryModel> {
        if self.logs.contains_key(name) {
            self.logs[name]
        } else {
            Seq::empty()
        }
    }

    /// The object that `name` points to directly, if it exists and does so.
    pub open spec fn direct_target(self, name: Seq<char>) -> Option<Seq<u8>> {
        if self.refs.contains_key(name) {
            match self.refs[name] {
                TargetModel::Direct(id) => Some(id),
                TargetModel::Symbolic(_) => None,
            }
        } else {
            None
        }
    }

    /// The object that `name` leads to when at most `depth` symbolic
    /// references are followed. A name that does not exist, at the start or
    /// along the way, is not found; a chain that is still symbolic after
    /// `depth` steps is inconsistent.
    pub open spec fn resolve(self, name: Seq<char>, depth: nat) -> Result<Seq<u8>, Error>
        decreases depth,
    {
        if !self.refs.contains_key(name) {
            Err(Error::NotFound)
        } else {
            match self.refs[name] {
                TargetModel::Direct(id) => Ok(id),
                TargetModel::Symbolic(next) => if depth == 0 {
                    Err(Error::GraphInconsistency)
                } else {
                    self.resolve(next, (depth - 1) as nat)
                },
            }
        }
    }
}

/// Whether the store meets what `edit` expects of its reference.
pub open spec fn expectation_met(store: StoreModel, edit: EditModel) -> bool {
    match edit.expected {
        ExpectedModel::Any => true,
        ExpectedModel::MustNotExist => !store.refs.contains_key(edit.name),
        ExpectedModel::MustExistAndMatch(id) => store.refs.contains_key(edit.name)
            && store.refs[edit.name] == TargetModel::Direct(id),
        ExpectedModel::MustExistAndMatchSymbolic(name) => store.refs.contains_key(edit.name)
            && store.refs[edit.name] == TargetModel::Symbolic(name),
    }
}

/// The entry that `edit` adds to the log of its reference, if it adds one:
/// only an edit that asks for it and sets a direct target does.
pub open spec fn logged_entry(store: StoreModel, edit: EditModel, now: Time) -> Option<
    LogEntryModel,
> {
    match edit.new_target {
        Some(TargetModel::Direct(id)) => if edit.write_reflog {
            Some(
                LogEntryModel {
                    old: store.direct_target(edit.name),
                    new: id,
                    message: edit.log_message,
                    timestamp: now,
                },
            )
        } else {
            None
        },
        _ => None,
    }
}

/// The store after one edit: the reference points to the new target, or is
/// gone if the edit has none; the log grows by the entry of the edit, or is
/// dropped by a deletion that asks for it, and else stays.
pub open spec fn apply_edit(store: StoreModel, edit: EditModel, now: Time) -> StoreModel {
    StoreModel {
        refs: match edit.new_target {
            Some(target) => store.refs.insert(edit.name, target),
            None => store.refs.remove(edit.name),
        },
        logs: match logged_entry(store, edit, now) {
            Some(entry) => store.logs.insert(edit.name, store.log_of(edit.name).push(entry)),
            None => if edit.new_target is None && edit.delete_reflog {
                store.logs.remove(edit.name)
            } else {
                store.logs
            },
        },
        max_depth: store.max_depth,
    }
}

/// The store after all of `edits`, applied first to last.
pub open spec fn apply_all(store: StoreModel, edits: Seq<EditModel>, now: Time) -> StoreModel
    decreases edits.len(),
{
    if edits.len() == 0 {
        store
    } else {
        apply_edit(apply_all(store, edits.drop_last(), now), edits.last(), now)
    }
}

/// No two of the edits change the same name.
pub open spec fn names_distinct(edits: Seq<EditModel>) -> bool {
    forall|i: int, j: int| 0 <= i < j < edits.len() ==> edits[i].name != edits[j].name
}

/// Every edit finds what it expects in the store.
pub open spec fn expectations_met(store: StoreModel, edits: Seq<EditModel>) -> bool {
    forall|k: int| 0 <= k < edits.len() ==> expectation_met(store, #[trigger] edits[k])
}

/// What a transaction does to a store. Two edits of one name are invalid
/// input. Else every expectation is held against the store as it was at the
/// start, and one that is not met fails the transaction. Else all edits are
/// applied.
pub open spec fn transaction_outcome(store: StoreModel, edits: Seq<EditModel>, now: Time) -> Result<
    StoreModel,
    Error,
> {
    if !names_distinct(edits) {
        Err(Error::InvalidInput)
    } else if !expectations_met(store, edits) {
        Err(Error::PreconditionFailed)
    } else {
        Ok(apply_all(store, edits, now))
    }
}

/// The store after a transaction: the store it leads to, or the store as it
/// was if the transaction fails.
pub open spec fn store_after(store: StoreModel, edits: Seq<EditModel>, now: Time) -> StoreModel {
    match transaction_outcome(store, edits, now) {
        Ok(after) => after,
        Err(_) => store,
    }
}

/// The reference that `HEAD` points to by name, if `HEAD` is symbolic and
/// that reference exists.
pub open spec fn head_reference(store: StoreModel) -> Option<ReferenceModel> {
    if store.refs.contains_key("HEAD"@) {
        match store.refs["HEAD"@] {
            TargetModel::Symbolic(name) => if store.refs.contains_key(name) {
                Some(ReferenceModel { name, target: store.refs[name] })
            } else {
                None
            },
            TargetModel::Direct(_) => None,
        }
    } else {
        None
    }
}

/// A transaction is atomic: if one of its edits does not find what it
/// expects, the transaction fails and the store is as it was, whatever the
/// other edits are and whichever names they change.
pub proof fn lemma_transaction_atomic(store: StoreModel, edits: Seq<EditModel>, now: Time, k: int)
    requires
        0 <= k < edits.len(),
        !expectation_met(store, edits[k]),
    ensures
        transaction_outcome(store, edits, now) is Err,
        store_after(store, edits, now) == store,
{
}

/// A reference that was created cannot be created again: after an edit that
/// sets a target, the same edit with the expectation that the name does not
/// exist fails, and leaves the store as the first edit made it.
pub proof fn lemma_create_twice_fails(store: StoreModel, edit: EditModel, now: Time, later: Time)
    requires
        edit.expected == ExpectedModel::MustNotExist,
        edit.new_target is Some,
        transaction_outcome(store, seq![edit], now) is Ok,
    ensures
        transaction_outcome(store_after(store, seq![edit], now), seq![edit], later) == Err::<
            StoreModel,
            Error,
        >(Error::PreconditionFailed),
        store_after(store_after(store, seq![edit], now), seq![edit], later) == store_after(
            store,
            seq![edit],
            now,
        ),
{
    let edits = seq![edit];
    assert(edits.drop_last() =~= Seq::<EditModel>::empty());
    assert(edits.last() == edit);
    let created = apply_all(store, edits, now);
    assert(apply_all(store, edits.drop_last(), now) == store);
    assert(created == apply_edit(store, edit, now));
    assert(created.refs.contains_key(edit.name));
    assert(!expectation_met(created, edits[0]));
}

/// An edit that expects nothing and sets a direct target always succeeds,
/// and if it asks for a log entry the log of its name grows by exactly one:
/// the entry from the object the name pointed to before to the new one.
pub proof fn lemma_overwrite_logs_once(store: StoreModel, edit: EditModel, id: Seq<u8>, now: Time)
    requires
        edit.expected == ExpectedModel::Any,
        edit.new_target == Some(TargetModel::Direct(id)),
        edit.write_reflog,
    ensures
        transaction_outcome(store, seq![edit], now) is Ok,
        store_after(store, seq![edit], now).refs == store.refs.insert(
            edit.name,
            TargetModel::Direct(id),
        ),
        store_after(store, seq![edit], now).log_of(edit.name) == store.log_of(edit.name).push(
            LogEntryModel {
                old: store.direct_target(edit.name),
                new: id,
                message: edit.log_message,
                timestamp: now,
            },
        ),
        store_after(store, seq![edit], now).log_of(edit.name).len() == store.log_of(edit.name).len()
            + 1,
{
    let edits = seq![edit];
    assert(edits.drop_last() =~= Seq::<EditModel>::empty());
    assert(edits.last() == edit);
    assert(apply_all(store, edits.drop_last(), now) == store);
    assert(apply_all(store, edits, now) == apply_edit(store, edit, now));
}

/// A cycle of symbolic references never resolves: from each of its names,
/// and with any depth allowed, resolution ends in
/// [`Error::GraphInconsistency`].
pub proof fn lemma_cycle_is_inconsistent(
    store: StoreModel,
    cycle: Seq<Seq<char>>,
    i: int,
    depth: nat,
)
    requires
        0 <= i < cycle.len(),
        forall|j: int|
            0 <= j < cycle.len() ==> store.refs.contains_key(#[trigger] cycle[j]) && store.refs[cycle[j]]
                == TargetModel::Symbolic(cycle[(j + 1) % (cycle.len() as int)]),
    ensures
        store.resolve(cycle[i], depth) == Err::<Seq<u8>, Error>(Error::GraphInconsistency),
    decreases depth,
{
    assert(store.refs.contains_key(cycle[i]));
    if depth > 0 {
        lemma_cycle_is_inconsistent(store, cycle, (i + 1) % (cycle.len() as int), (depth - 1) as nat);
    }
}

/// The references that the edits write, in the order of the edits. A
/// deletion writes none.
pub open spec fn written_references(edits: Seq<EditModel>) -> Seq<ReferenceModel>
    decreases edits.len(),
{
    if edits.len() == 0 {
        Seq::empty()
    } else {
        let before = written_references(edits.drop_last());
        match edits.last().new_target {
            Some(target) => before.push(ReferenceModel { name: edits.last().name, target }),
            None => before,
        }
    }
}

/// What the store keeps for one name.
struct Slot {
    name: RefName,
    target: Option<Target>,
    log: Vec<ReflogEntry>,
}

spec fn slots_distinct(slots: Seq<Slot>) -> bool {
    forall|i: int, j: int| 0 <= i < j < slots.len() ==> slots[i].name@ != slots[j].name@
}

spec fn has_slot(slots: Seq<Slot>, name: Seq<char>) -> bool {
    exists|i: int| 0 <= i < slots.len() && #[trigger] slots[i].name@ == name
}

spec fn slot_at(slots: Seq<Slot>, name: Seq<char>) -> int {
    choose|i: int| 0 <= i < slots.len() && #[trigger] slots[i].name@ == name
}

spec fn slots_refs(slots: Seq<Slot>) -> Map<Seq<char>, TargetModel> {
    Map::new(
        |name: Seq<char>| has_slot(slots, name) && slots[slot_at(slots, name)].target is Some,
        |name: Seq<char>| slots[slot_at(slots, name)].target->0@,
    )
}

spec fn slots_logs(slots: Seq<Slot>) -> Map<Seq<char>, Seq<LogEntryModel>> {
    Map::new(
        |name: Seq<char>| has_slot(slots, name) && slots[slot_at(slots, name)].log@.len() > 0,
        |name: Seq<char>| entry_models(slots[slot_at(slots, name)].log@),
    )
}

proof fn lemma_slot_at(slots: Seq<Slot>, i: int)
    requires
        slots_distinct(slots),
        0 <= i < slots.len(),
    ensures
        has_slot(slots, slots[i].name@),
        slot_at(slots, slots[i].name@) == i,
{
    let j = slot_at(slots, slots[i].name@);
    assert(0 <= j < slots.len() && slots[j].name@ == slots[i].name@);
}

/// A slot without target and log adds nothing to the store.
proof fn lemma_push_empty_slot(slots: Seq<Slot>, slot: Slot)
    requires
        slots_distinct(slots),
        !has_slot(slots, slot.name@),
        slot.target is None,
        slot.log@.len() == 0,
    ensures
        slots_distinct(slots.push(slot)),
        slots_refs(slots.push(slot)) == slots_refs(slots),
        slots_logs(slots.push(slot)) == slots_logs(slots),
{
    let after = slots.push(slot);
    assert forall|i: int, j: int| 0 <= i < j < after.len() implies after[i].name@
        != after[j].name@ by {
        if j == slots.len() {
            assert(slots[i].name@ != slot.name@);
        }
    }
    assert forall|name: Seq<char>| has_slot(slots, name) implies has_slot(after, name) && slot_at(
        after,
        name,
    ) == slot_at(slots, name) by {
        let k = slot_at(slots, name);
        assert(after[k].name@ == name);
        lemma_slot_at(after, k);
    }
    assert forall|name: Seq<char>| has_slot(after, name) && !has_slot(slots, name) implies slot_at(
        after,
        name,
    ) == slots.len() by {
        let k = slot_at(after, name);
        if k < slots.len() {
            assert(slots[k].name@ == name);
        }
    }
    assert(slots_refs(after) =~= slots_refs(slots));
    assert(slots_logs(after) =~= slots_logs(slots));
}

/// Replacing what is kept for a name changes the store at that name alone.
proof fn lemma_update_slot(slots: Seq<Slot>, i: int, slot: Slot)
    requires
        slots_distinct(slots),
        0 <= i < slots.len(),
        slot.name@ == slots[i].name@,
    ensures
        slots_distinct(slots.update(i, slot)),
        slots_refs(slots.update(i, slot)) == (match slot.target {
            Some(target) => slots_refs(slots).insert(slot.name@, target@),
            None => slots_refs(slots).remove(slot.name@),
        }),
        slots_logs(slots.update(i, slot)) == (if slot.log@.len() > 0 {
            slots_logs(slots).insert(slot.name@, entry_models(slot.log@))
        } else {
            slots_logs(slots).remove(slot.name@)
        }),
{
    let after = slots.update(i, slot);
    assert forall|a: int, b: int| 0 <= a < b < after.len() implies after[a].name@
        != after[b].name@ by {
        assert(after[a].name@ == slots[a].name@);
        assert(after[b].name@ == slots[b].name@);
    }
    assert forall|name: Seq<char>| has_slot(slots, name) implies has_slot(after, name) && slot_at(
        after,
        name,
    ) == slot_at(slots, name) by {
        let k = slot_at(slots, name);
        assert(after[k].name@ == name);
        lemma_slot_at(after, k);
    }
    assert forall|name: Seq<char>| has_slot(after, name) implies has_slot(slots, name) by {
        let k = slot_at(after, name);
        assert(slots[k].name@ == name);
    }
    lemma_slot_at(slots, i);
    let refs = match slot.target {
        Some(target) => slots_refs(slots).insert(slot.name@, target@),
        None => slots_refs(slots).remove(slot.name@),
    };
    assert(slots_refs(after) =~= refs);
    let logs = if slot.log@.len() > 0 {
        slots_logs(slots).insert(slot.name@, entry_models(slot.log@))
    } else {
        slots_logs(slots).remove(slot.name@)
    };
    assert(slots_logs(after) =~= logs);
}

/// Where `name` is kept, if it is kept.
fn find_slot(slots: &Vec<Slot>, name: &String) -> (found: Option<usize>)
    ensures
        found matches Some(i) ==> i < slots@.len() && slots@[i as int].name@ == name@,
        found is None ==> !has_slot(slots@, name@),
{
    let mut i: usize = 0;
    while i < slots.len()
        invariant
            i <= slots@.len(),
            forall|k: int| 0 <= k < i ==> slots@[k].name@ != name@,
        decreases slots@.len() - i,
    {
        if slots[i].name.has_text(name) {
            return Some(i);
        }
        i += 1;
    }
    None
}

/// The references that are kept, in the order in which their names came.
spec fn slots_listing(slots: Seq<Slot>) -> Seq<ReferenceModel>
    decreases slots.len(),
{
    if slots.len() == 0 {
        Seq::empty()
    } else {
        let before = slots_listing(slots.drop_last());
        match slots.last().target {
            Some(target) => before.push(
                ReferenceModel { name: slots.last().name@, target: target@ },
            ),
            None => before,
        }
    }
}

/// The listing holds each reference that is kept, once.
proof fn lemma_listing(slots: Seq<Slot>)
    requires
        slots_distinct(slots),
    ensures
        forall|i: int|
            0 <= i < slots_listing(slots).len() ==> {
                &&& slots_refs(slots).contains_key(#[trigger] slots_listing(slots)[i].name)
                &&& slots_refs(slots)[slots_listing(slots)[i].name] == slots_listing(slots)[i].target
            },
        forall|i: int, j: int|
            0 <= i < j < slots_listing(slots).len() ==> slots_listing(slots)[i].name
                != slots_listing(slots)[j].name,
        forall|name: Seq<char>|
            slots_refs(slots).contains_key(name) ==> exists|i: int|
                0 <= i < slots_listing(slots).len() && #[trigger] slots_listing(slots)[i].name
                    == name,
        forall|i: int|
            0 <= i < slots_listing(slots).len() ==> has_slot(
                slots,
                #[trigger] slots_listing(slots)[i].name,
            ),
    decreases slots.len(),
{
    if slots.len() > 0 {
        let front = slots.drop_last();
        let last = slots.last();
        let before = slots_listing(front);
        let all = slots_listing(slots);
        lemma_listing(front);
        lemma_slot_at(slots, slots.len() - 1);
        assert forall|name: Seq<char>| has_slot(front, name) implies has_slot(slots, name)
            && slot_at(slots, name) == slot_at(front, name) && name != last.name@ by {
            let k = slot_at(front, name);
            assert(slots[k].name@ == name);
            lemma_slot_at(slots, k);
        }
        assert forall|name: Seq<char>| has_slot(slots, name) && name != last.name@ implies has_slot(
            front,
            name,
        ) by {
            let k = slot_at(slots, name);
            assert(front[k].name@ == name);
        }
        assert forall|i: int| 0 <= i < before.len() implies all[i] == before[i] by {}
        assert forall|i: int| 0 <= i < all.len() implies has_slot(slots, #[trigger] all[i].name)
            && slots_refs(slots).contains_key(all[i].name) && slots_refs(slots)[all[i].name]
            == all[i].target by {
            if i < before.len() {
                assert(has_slot(front, before[i].name));
                assert(slots_refs(front).contains_key(before[i].name));
            }
        }
        assert forall|i: int, j: int| 0 <= i < j < all.len() implies all[i].name
            != all[j].name by {
            if j < before.len() {
                assert(before[i].name != before[j].name);
            } else {
                assert(has_slot(front, before[i].name));
            }
        }
        assert forall|name: Seq<char>| slots_refs(slots).contains_key(name) implies exists|i: int|
            0 <= i < all.len() && #[trigger] all[i].name == name by {
            if name == last.name@ {
                assert(all[all.len() - 1].name == name);
            } else {
                assert(slots_refs(front).contains_key(name));
                let i = choose|i: int| 0 <= i < before.len() && #[trigger] before[i].name == name;
                assert(all[i].name == name);
            }
        }
    }
}

spec fn slots_model(slots: Seq<Slot>, depth: nat) -> StoreModel {
    StoreModel { refs: slots_refs(slots), logs: slots_logs(slots), max_depth: depth }
}

/// Make sure that `name` is kept, without a change to the store.
fn ensure_slot(slots: &mut Vec<Slot>, name: &RefName) -> (i: usize)
    requires
        slots_distinct(old(slots)@),
    ensures
        slots_distinct(final(slots)@),
        i < final(slots)@.len(),
        final(slots)@[i as int].name@ == name@,
        slots_refs(final(slots)@) == slots_refs(old(slots)@),
        slots_logs(final(slots)@) == slots_logs(old(slots)@),
{
    match find_slot(slots, name.text()) {
        Some(i) => i,
        None => {
            let slot = Slot { name: name.clone(), target: None, log: Vec::new() };
            proof {
                lemma_push_empty_slot(slots@, slot);
            }
            slots.push(slot);
            slots.len() - 1
        },
    }
}

/// Whether what is kept meets what `edit` expects.
fn expectation_holds(slots: &Vec<Slot>, edit: &RefEdit, Ghost(depth): Ghost<nat>) -> (met: bool)
    requires
        slots_distinct(slots@),
    ensures
        met == expectation_met(slots_model(slots@, depth), edit@),
{
    let current: Option<&Target> = match find_slot(slots, edit.name.text()) {
        Some(i) => {
            proof {
                lemma_slot_at(slots@, i as int);
            }
            slots[i].target.as_ref()
        },
        None => None,
    };
    assert(current is Some <==> slots_refs(slots@).contains_key(edit.name@));
    assert(current matches Some(target) ==> target@ == slots_refs(slots@)[edit.name@]);
    match &edit.expected {
        Expected::Any => true,
        Expected::MustNotExist => current.is_none(),
        Expected::MustExistAndMatch(id) => match current {
            Some(Target::Direct(held)) => held == id,
            _ => false,
        },
        Expected::MustExistAndMatchSymbolic(name) => match current {
            Some(Target::Symbolic(held)) => held == name,
            _ => false,
        },
    }
}

/// Apply one edit to what is kept.
fn apply_one(slots: &mut Vec<Slot>, edit: &RefEdit, now: Time, Ghost(depth): Ghost<nat>)
    requires
        slots_distinct(old(slots)@),
    ensures
        slots_distinct(final(slots)@),
        slots_model(final(slots)@, depth) == apply_edit(slots_model(old(slots)@, depth), edit@, now),
{
    let i = ensure_slot(slots, &edit.name);
    let ghost kept = slots@;
    let ghost before = slots_model(kept, depth);
    proof {
        lemma_slot_at(kept, i as int);
    }
    let mut slot = slots.remove(i);
    let ghost held = slot;
    assert(before.log_of(edit.name@) == entry_models(held.log@)) by {
        if held.log@.len() == 0 {
            assert(entry_models(held.log@) =~= Seq::<LogEntryModel>::empty());
        }
    }
    match &edit.new_target {
        Some(target) => {
            match target {
                Target::Direct(id) => {
                    if edit.write_reflog {
                        let old = match &slot.target {
                            Some(Target::Direct(previous)) => Some(previous.clone()),
                            _ => None,
                        };
                        let entry = ReflogEntry {
                            old,
                            new: id.clone(),
                            message: edit.log_message.clone(),
                            timestamp: now,
                        };
                        assert(Some(entry@) == logged_entry(before, edit@, now));
                        slot.log.push(entry);
                        assert(entry_models(slot.log@) =~= entry_models(held.log@).push(entry@));
                    }
                },
                Target::Symbolic(_) => {},
            }
            slot.target = Some(target.clone());
        },
        None => {
            slot.target = None;
            if edit.delete_reflog {
                slot.log = Vec::new();
            }
        },
    }
    proof {
        lemma_update_slot(kept, i as int, slot);
        assert(kept.remove(i as int).insert(i as int, slot) =~= kept.update(i as int, slot));
        let after = apply_edit(before, edit@, now);
        assert(slots_refs(kept.update(i as int, slot)) == after.refs);
        assert(slots_logs(kept.update(i as int, slot)) =~= after.logs);
    }
    slots.insert(i, slot);
}

/// Whether no two edits change the same name.
fn edits_distinct(edits: &Vec<RefEdit>) -> (distinct: bool)
    ensures
        distinct == names_distinct(edit_models(edits@)),
{
    let ghost models = edit_models(edits@);
    let mut j: usize = 0;
    while j < edits.len()
        invariant
            j <= edits@.len(),
            models == edit_models(edits@),
            forall|a: int, b: int| 0 <= a < b < j ==> models[a].name != models[b].name,
        decreases edits@.len() - j,
    {
        let mut i: usize = 0;
        while i < j
            invariant
                i <= j < edits@.len(),
                models == edit_models(edits@),
                forall|a: int| 0 <= a < i ==> models[a].name != models[j as int].name,
            decreases j - i,
        {
            if edits[i].name == edits[j].name {
                assert(models[i as int].name == models[j as int].name);
                return false;
            }
            i += 1;
        }
        j += 1;
    }
    true
}

/// The reference store. It holds the target of every reference and the log
/// of every name, and is changed by transactions alone.
pub struct RefStore {
    slots: Vec<Slot>,
    max_depth: usize,
}

impl View for RefStore {
    type V = StoreModel;

    closed spec fn view(&self) -> StoreModel {
        slots_model(self.slots@, self.max_depth as nat)
    }
}

impl RefStore {
    #[verifier::type_invariant]
    spec fn well_formed(self) -> bool {
        slots_distinct(self.slots@)
    }

    /// An empty store in which a chain of at most `max_depth` symbolic
    /// references is followed.
    pub fn new(max_depth: usize) -> (store: RefStore)
        ensures
            store@.refs == Map::<Seq<char>, TargetModel>::empty(),
            store@.logs == Map::<Seq<char>, Seq<LogEntryModel>>::empty(),
            store@.max_depth == max_depth,
    {
        let store = RefStore { slots: Vec::new(), max_depth };
        assert(store@.refs =~= Map::<Seq<char>, TargetModel>::empty());
        assert(store@.logs =~= Map::<Seq<char>, Seq<LogEntryModel>>::empty());
        store
    }

    /// How many symbolic references are followed at most.
    pub fn max_depth(&self) -> (depth: usize)
        ensures
            depth == self@.max_depth,
    {
        self.max_depth
    }

    /// The reference of exactly this name, if it exists.
    pub fn find(&self, name: &str) -> (found: Option<Reference>)
        ensures
            found is Some <==> self@.refs.contains_key(name@),
            found matches Some(reference) ==> reference@ == (ReferenceModel {
                name: name@,
                target: self@.refs[name@],
            }),
    {
        proof {
            use_type_invariant(self);
        }
        let wanted = name.to_owned();
        match find_slot(&self.slots, &wanted) {
            Some(i) => {
                proof {
                    lemma_slot_at(self.slots@, i as int);
                }
                match &self.slots[i].target {
                    Some(target) => Some(
                        Reference { name: self.slots[i].name.clone(), target: target.clone() },
                    ),
                    None => None,
                }
            },
            None => None,
        }
    }

    /// The log of exactly this name, oldest entry first. It is empty for a
    /// name that has none.
    pub fn log(&self, name: &str) -> (entries: Vec<ReflogEntry>)
        ensures
            entry_models(entries@) == self@.log_of(name@),
    {
        proof {
            use_type_invariant(self);
        }
        let wanted = name.to_owned();
        let mut entries: Vec<ReflogEntry> = Vec::new();
        match find_slot(&self.slots, &wanted) {
            Some(i) => {
                proof {
                    lemma_slot_at(self.slots@, i as int);
                }
                let kept = &self.slots[i].log;
                let mut k: usize = 0;
                while k < kept.len()
                    invariant
                        k <= kept@.len(),
                        entries@.len() == k,
                        forall|a: int| 0 <= a < k ==> entries@[a]@ == kept@[a]@,
                    decreases kept@.len() - k,
                {
                    entries.push(kept[k].clone());
                    k += 1;
                }
                assert(entry_models(entries@) =~= entry_models(kept@));
            },
            None => {},
        }
        assert(entries@.len() == 0 ==> entry_models(entries@) =~= Seq::<LogEntryModel>::empty());
        entries
    }

    /// The references in the order in which [`RefStore::references`] hands
    /// them out: that in which their names first came into the store.
    pub closed spec fn listing(&self) -> Seq<ReferenceModel> {
        slots_listing(self.slots@)
    }

    /// Every reference that exists, each once, in the order in which the
    /// names first came into the store. Two calls on one store give the
    /// same list.
    pub fn references(&self) -> (all: Vec<Reference>)
        ensures
            reference_models(all@) == self.listing(),
            forall|i: int|
                0 <= i < all@.len() ==> self@.refs.contains_key(#[trigger] all@[i].name@)
                    && self@.refs[all@[i].name@] == all@[i].target@,
            forall|i: int, j: int| 0 <= i < j < all@.len() ==> all@[i].name@ != all@[j].name@,
            forall|name: Seq<char>|
                self@.refs.contains_key(name) ==> exists|i: int|
                    0 <= i < all@.len() && #[trigger] all@[i].name@ == name,
    {
        proof {
            use_type_invariant(self);
        }
        let mut all: Vec<Reference> = Vec::new();
        let mut k: usize = 0;
        assert(self.slots@.take(0) =~= Seq::<Slot>::empty());
        assert(reference_models(all@) =~= Seq::<ReferenceModel>::empty());
        while k < self.slots.len()
            invariant
                k <= self.slots@.len(),
                reference_models(all@) == slots_listing(self.slots@.take(k as int)),
            decreases self.slots@.len() - k,
        {
            let ghost held = reference_models(all@);
            proof {
                let upto = self.slots@.take(k + 1);
                assert(upto.drop_last() =~= self.slots@.take(k as int));
                assert(upto.last() == self.slots@[k as int]);
            }
            match &self.slots[k].target {
                Some(target) => {
                    let reference = Reference {
                        name: self.slots[k].name.clone(),
                        target: target.clone(),
                    };
                    all.push(reference);
                    assert(reference_models(all@) =~= held.push(reference@));
                },
                None => {},
            }
            k += 1;
        }
        proof {
            assert(self.slots@.take(self.slots@.len() as int) =~= self.slots@);
            lemma_listing(self.slots@);
            let listed = self.listing();
            assert forall|i: int| 0 <= i < all@.len() implies #[trigger] all@[i]@ == listed[i] by {
                assert(reference_models(all@)[i] == all@[i]@);
            }
            assert forall|i: int| 0 <= i < all@.len() implies self@.refs.contains_key(
                #[trigger] all@[i].name@,
            ) && self@.refs[all@[i].name@] == all@[i].target@ by {
                assert(all@[i]@ == listed[i]);
                assert(self@.refs.contains_key(listed[i].name));
            }
            assert forall|i: int, j: int| 0 <= i < j < all@.len() implies all@[i].name@
                != all@[j].name@ by {
                assert(all@[i]@ == listed[i] && all@[j]@ == listed[j]);
            }
            assert forall|name: Seq<char>| self@.refs.contains_key(name) implies exists|i: int|
                0 <= i < all@.len() && #[trigger] all@[i].name@ == name by {
                let i = choose|i: int| 0 <= i < listed.len() && #[trigger] listed[i].name == name;
                assert(all@[i]@ == listed[i]);
                assert(all@[i].name@ == name);
            }
        }
        all
    }

    /// The reference that `HEAD` points to by name. There is none if `HEAD`
    /// does not exist, points to an object itself, or names a reference
    /// that does not exist.
    pub fn head_ref(&self) -> (head: Option<Reference>)
        ensures
            match head_reference(self@) {
                Some(reference) => head is Some && head->0@ == reference,
                None => head is None,
            },
    {
        match self.find("HEAD") {
            Some(head) => match head.target {
                Target::Symbolic(name) => self.find(name.as_str()),
                Target::Direct(_) => None,
            },
            None => None,
        }
    }

    /// The object that `name` leads to. Symbolic references are followed,
    /// at most as many as the store allows. A chain that is longer, as every
    /// cycle is, fails with [`Error::GraphInconsistency`]; a name that does
    /// not exist, at the start or along the way, with [`Error::NotFound`].
    pub fn resolve(&self, name: &str) -> (resolved: Result<ObjectId, Error>)
        ensures
            match self@.resolve(name@, self@.max_depth) {
                Ok(id) => resolved matches Ok(found) && found@ == id,
                Err(e) => resolved matches Err(failure) && failure == e,
            },
    {
        let mut current = name.to_owned();
        let mut left = self.max_depth;
        loop
            invariant
                left <= self.max_depth,
                self@.resolve(name@, self@.max_depth) == self@.resolve(current@, left as nat),
            decreases left,
        {
            match self.find(current.as_str()) {
                None => {
                    return Err(Error::NotFound);
                },
                Some(reference) => match reference.target {
                    Target::Direct(id) => {
                        return Ok(id);
                    },
                    Target::Symbolic(next) => {
                        if left == 0 {
                            return Err(Error::GraphInconsistency);
                        }
                        current = next.as_str().to_owned();
                        left -= 1;
                    },
                },
            }
        }
    }

    /// Apply a batch of edits, all or none. The edits are used up.
    ///
    /// Two edits of one name are refused with [`Error::InvalidInput`]. Then
    /// every edit is held against the store as it is before the call: if
    /// one does not find what it expects, the batch fails with
    /// [`Error::PreconditionFailed`]. In both cases the store stays as it
    /// was. Otherwise every edit is applied, and the references that were
    /// written come back in the order of their edits. `now` is the time of
    /// the log entries.
    pub fn apply_transaction(&mut self, edits: Vec<RefEdit>, now: Time) -> (outcome: Result<
        Vec<Reference>,
        Error,
    >)
        ensures
            final(self)@ == store_after(old(self)@, edit_models(edits@), now),
            match transaction_outcome(old(self)@, edit_models(edits@), now) {
                Ok(after) => {
                    &&& final(self)@ == after
                    &&& outcome is Ok
                    &&& reference_models(outcome->Ok_0@) == written_references(edit_models(edits@))
                },
                Err(e) => {
                    &&& final(self)@ == old(self)@
                    &&& outcome is Err
                    &&& outcome->Err_0 == e
                },
            },
    {
        proof {
            use_type_invariant(&*self);
        }
        let ghost before = self@;
        let ghost depth = self.max_depth as nat;
        let ghost models = edit_models(edits@);
        if !edits_distinct(&edits) {
            return Err(Error::InvalidInput);
        }
        let mut k: usize = 0;
        while k < edits.len()
            invariant
                k <= edits@.len(),
                slots_distinct(self.slots@),
                self@ == before,
                depth == self.max_depth,
                models == edit_models(edits@),
                names_distinct(models),
                forall|a: int| 0 <= a < k ==> expectation_met(before, #[trigger] models[a]),
            decreases edits@.len() - k,
        {
            if !expectation_holds(&self.slots, &edits[k], Ghost(depth)) {
                assert(!expectation_met(before, models[k as int]));
                return Err(Error::PreconditionFailed);
            }
            k += 1;
        }
        assert(expectations_met(before, models));
        let mut slots: Vec<Slot> = Vec::new();
        core::mem::swap(&mut self.slots, &mut slots);
        let mut written: Vec<Reference> = Vec::new();
        let mut i: usize = 0;
        assert(models.take(0) =~= Seq::<EditModel>::empty());
        while i < edits.len()
            invariant
                i <= edits@.len(),
                slots_distinct(slots@),
                self.slots@.len() == 0,
                depth == self.max_depth,
                models == edit_models(edits@),
                names_distinct(models),
                expectations_met(before, models),
                slots_model(slots@, depth) == apply_all(before, models.take(i as int), now),
                reference_models(written@) == written_references(models.take(i as int)),
            decreases edits@.len() - i,
        {
            let edit = &edits[i];
            proof {
                let upto = models.take(i + 1);
                assert(upto.drop_last() =~= models.take(i as int));
                assert(upto.last() == edit@);
            }
            apply_one(&mut slots, edit, now, Ghost(depth));
            let ghost seen = written@;
            match &edit.new_target {
                Some(target) => {
                    let reference = Reference { name: edit.name.clone(), target: target.clone() };
                    written.push(reference);
                    assert(reference_models(written@) =~= reference_models(seen).push(reference@));
                },
                None => {},
            }
            i += 1;
        }
        assert(models.take(edits@.len() as int) =~= models);
        self.slots = slots;
        Ok(written)
    }
}

} // verus!
